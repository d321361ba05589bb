//! The bracketed text form of a matrix, `[[a,b],[c,d]]`: reading and writing.
//!
//! Reading is lenient in the same way at every level: blanks are dropped
//! anywhere, the rows are the pieces between occurrences of `],[`, each row
//! loses every `[` and `]` it holds, and its tokens are the pieces between
//! commas. A literal that lacks its final bracket, such as `[[1],[2]`, reads
//! as well as a complete one.
use vstd::arithmetic::div_mod::{lemma_div_pos_is_pos, lemma_fundamental_div_mod, lemma_mod_bound};
use vstd::prelude::*;

use crate::matrix::{lemma_cell_index, Matrix, MatrixError, MatrixModel};
use crate::scalar_fn::{formatted, lemma_formatted, lemma_parsed, parsed, pure_formatter, pure_parser};

verus! {

/// A whitespace character: one of those with the Unicode `White_Space`
/// property.
pub open spec fn is_blank(c: char) -> bool {
    let u = c as u32;
    ||| 0x09 <= u <= 0x0D
    ||| u == 0x20
    ||| u == 0x85
    ||| u == 0xA0
    ||| u == 0x1680
    ||| 0x2000 <= u <= 0x200A
    ||| u == 0x2028
    ||| u == 0x2029
    ||| u == 0x202F
    ||| u == 0x205F
    ||| u == 0x3000
}

/// Whether `c` is a whitespace character.
fn blank(c: char) -> (r: bool)
    ensures
        r == is_blank(c),
{
    let u = c as u32;
    (0x09 <= u && u <= 0x0D) || u == 0x20 || u == 0x85 || u == 0xA0 || u == 0x1680 || (0x2000 <= u && u
        <= 0x200A) || u == 0x2028 || u == 0x2029 || u == 0x202F || u == 0x205F || u == 0x3000
}

pub open spec fn is_bracket(c: char) -> bool {
    c == '[' || c == ']'
}

/// `s` with every blank left out.
pub open spec fn remove_blanks(s: Seq<char>) -> Seq<char>
    decreases s.len(),
{
    if s.len() == 0 {
        s
    } else if is_blank(s.last()) {
        remove_blanks(s.drop_last())
    } else {
        remove_blanks(s.drop_last()).push(s.last())
    }
}

/// `s` with every `[` and `]` left out.
pub open spec fn remove_brackets(s: Seq<char>) -> Seq<char>
    decreases s.len(),
{
    if s.len() == 0 {
        s
    } else if is_bracket(s.last()) {
        remove_brackets(s.drop_last())
    } else {
        remove_brackets(s.drop_last()).push(s.last())
    }
}

pub open spec fn starts_with(s: Seq<char>, d: Seq<char>) -> bool {
    d.len() <= s.len() && s.subrange(0, d.len() as int) == d
}

/// `pieces` with `p` put in front of its first piece.
pub open spec fn prepend_first(p: Seq<char>, pieces: Seq<Seq<char>>) -> Seq<Seq<char>> {
    pieces.update(0, p + pieces[0])
}

/// The pieces of `s` between the occurrences of the delimiter `d`, found
/// from the left without overlap. There is always at least one piece.
pub open spec fn split_on(s: Seq<char>, d: Seq<char>) -> Seq<Seq<char>>
    decreases s.len(),
{
    if s.len() == 0 {
        seq![Seq::empty()]
    } else if d.len() > 0 && starts_with(s, d) {
        seq![Seq::empty()] + split_on(s.subrange(d.len() as int, s.len() as int), d)
    } else {
        prepend_first(seq![s[0]], split_on(s.drop_first(), d))
    }
}

pub open spec fn row_delimiter() -> Seq<char> {
    seq![']', ',', '[']
}

pub open spec fn token_delimiter() -> Seq<char> {
    seq![',']
}

/// The tokens of a literal, row by row.
pub open spec fn literal_grid(s: Seq<char>) -> Seq<Seq<Seq<char>>> {
    let rows = split_on(remove_blanks(s), row_delimiter());
    Seq::new(rows.len(), |r: int| split_on(remove_brackets(rows[r]), token_delimiter()))
}

/// Every row of `g` has as many tokens as its first row.
pub open spec fn is_rectangular(g: Seq<Seq<Seq<char>>>) -> bool {
    forall|r: int| 0 <= r < g.len() ==> #[trigger] g[r].len() == g[0].len()
}

/// `parse` reads a number from every token of `g`.
pub open spec fn all_parse<T, F: Fn(&[char]) -> Option<T>>(g: Seq<Seq<Seq<char>>>, parse: F) -> bool {
    forall|r: int, c: int| 0 <= r < g.len() && 0 <= c < g[r].len() ==> #[trigger] parsed(parse, g[r][c]) is Some
}

/// The tokens of all rows of `g`, in row order.
pub open spec fn flatten(g: Seq<Seq<Seq<char>>>) -> Seq<Seq<char>>
    decreases g.len(),
{
    if g.len() == 0 {
        Seq::empty()
    } else {
        flatten(g.drop_last()) + g.last()
    }
}

/// The numbers that `parse` reads from `tokens`.
pub open spec fn values_of<T, F: Fn(&[char]) -> Option<T>>(tokens: Seq<Seq<char>>, parse: F) -> Seq<T> {
    Seq::new(tokens.len(), |i: int| parsed(parse, tokens[i])->Some_0)
}

/// The matrix that a grid of tokens stands for: one row per row of the grid,
/// as many columns as its last row has tokens, and every token read by
/// `parse` as a cell, in row order.
pub open spec fn grid_model<T, F: Fn(&[char]) -> Option<T>>(g: Seq<Seq<Seq<char>>>, parse: F) -> MatrixModel<T> {
    MatrixModel { rows: g.len(), cols: g.last().len(), cells: values_of(flatten(g), parse) }
}

/// `parse` reads a number from every token of the literal `s`.
pub open spec fn literal_readable<T, F: Fn(&[char]) -> Option<T>>(s: Seq<char>, parse: F) -> bool {
    all_parse(literal_grid(s), parse)
}

/// A grid whose rows all hold `cols` tokens has `g.len() * cols` tokens.
pub proof fn lemma_flatten_len(g: Seq<Seq<Seq<char>>>, cols: nat)
    requires
        forall|r: int| 0 <= r < g.len() ==> #[trigger] g[r].len() == cols,
    ensures
        flatten(g).len() == g.len() * cols,
    decreases g.len(),
{
    if g.len() > 0 {
        lemma_flatten_len(g.drop_last(), cols);
        assert(g.len() * cols == (g.len() - 1) * cols + cols) by (nonlinear_arith);
    }
}

/// The pieces `parts` joined with `sep` between each two.
pub open spec fn join(parts: Seq<Seq<char>>, sep: Seq<char>) -> Seq<char>
    decreases parts.len(),
{
    if parts.len() == 0 {
        Seq::empty()
    } else if parts.len() == 1 {
        parts[0]
    } else {
        join(parts.drop_last(), sep) + sep + parts.last()
    }
}

pub open spec fn bracketed(s: Seq<char>) -> Seq<char> {
    seq!['['] + s + seq![']']
}

/// The text of a `rows` x `cols` matrix whose cells are written as `texts`:
/// each row bracketed with its cells separated by commas, the rows separated
/// by commas, the whole bracketed. A matrix without cells is `[]`.
pub open spec fn render(texts: Seq<Seq<char>>, rows: nat, cols: nat) -> Seq<char> {
    let n = if cols == 0 { 0 } else { rows };
    bracketed(join(row_texts(texts, cols, n), token_delimiter()))
}

/// The texts of the first `n` rows, each bracketed with its `cols` cells
/// separated by commas.
pub open spec fn row_texts(texts: Seq<Seq<char>>, cols: nat, n: nat) -> Seq<Seq<char>> {
    Seq::new(n, |r: int| bracketed(join(texts.subrange(r * cols, r * cols + cols), token_delimiter())))
}

/// The text of the matrix `m`, each cell written by `fmt` with
/// `decimal_places` digits after the point.
pub open spec fn rendered<T, F: Fn(T, usize) -> String>(m: MatrixModel<T>, decimal_places: usize, fmt: F) -> Seq<char> {
    render(Seq::new(m.cells.len(), |i: int| formatted(fmt, m.cells[i], decimal_places)), m.rows, m.cols)
}

/// Row `r` of a `rows` x `cols` matrix ends inside its storage.
pub proof fn lemma_row_end(r: int, rows: int, cols: int)
    requires
        0 <= r < rows,
        0 <= cols,
    ensures
        r * cols + cols <= rows * cols,
{
    assert(r * cols + cols <= rows * cols) by (nonlinear_arith)
        requires
            0 <= r < rows,
            0 <= cols,
    ;
}

pub proof fn lemma_split_on_nonempty(s: Seq<char>, d: Seq<char>)
    ensures
        split_on(s, d).len() >= 1,
    decreases s.len(),
{
    if s.len() == 0 {
    } else if d.len() > 0 && starts_with(s, d) {
        lemma_split_on_nonempty(s.subrange(d.len() as int, s.len() as int), d);
    } else {
        lemma_split_on_nonempty(s.drop_first(), d);
    }
}

/// No character of `s` is `c`.
pub open spec fn avoids(s: Seq<char>, c: char) -> bool {
    forall|i: int| 0 <= i < s.len() ==> s[i] != c
}

/// No character of `s` is a blank.
pub open spec fn blank_free(s: Seq<char>) -> bool {
    forall|i: int| 0 <= i < s.len() ==> !is_blank(#[trigger] s[i])
}

/// `s` can stand as a token of a literal: it holds no blank, bracket or
/// comma.
pub open spec fn plain_token(s: Seq<char>) -> bool {
    blank_free(s) && avoids(s, '[') && avoids(s, ']') && avoids(s, ',')
}

/// The delimiter `d` occurs nowhere in `s`.
pub open spec fn lacks(s: Seq<char>, d: Seq<char>) -> bool {
    forall|i: int| 0 <= i <= s.len() ==> !starts_with(#[trigger] s.subrange(i, s.len() as int), d)
}

/// Each of `parts` in brackets.
pub open spec fn bracket_each(parts: Seq<Seq<char>>) -> Seq<Seq<char>> {
    Seq::new(parts.len(), |r: int| bracketed(parts[r]))
}

/// The cells of row `r` of a matrix with `cols` columns.
pub open spec fn row_cells(texts: Seq<Seq<char>>, cols: nat, r: int) -> Seq<Seq<char>> {
    texts.subrange(r * cols, r * cols + cols)
}

/// The cells of the first `n` rows of a matrix with `cols` columns, row by
/// row.
pub open spec fn row_grid(texts: Seq<Seq<char>>, cols: nat, n: nat) -> Seq<Seq<Seq<char>>> {
    Seq::new(n, |r: int| row_cells(texts, cols, r))
}

/// The text of each row's cells, separated by commas.
pub open spec fn row_bodies(texts: Seq<Seq<char>>, rows: nat, cols: nat) -> Seq<Seq<char>> {
    Seq::new(rows, |r: int| join(row_cells(texts, cols, r), token_delimiter()))
}

proof fn lemma_remove_blanks_id(s: Seq<char>)
    requires
        blank_free(s),
    ensures
        remove_blanks(s) == s,
    decreases s.len(),
{
    if s.len() > 0 {
        lemma_remove_blanks_id(s.drop_last());
        assert(s.drop_last().push(s.last()) =~= s);
    }
}

proof fn lemma_remove_blanks_concat(a: Seq<char>, b: Seq<char>)
    ensures
        remove_blanks(a + b) == remove_blanks(a) + remove_blanks(b),
    decreases b.len(),
{
    if b.len() == 0 {
        assert(a + b =~= a);
        assert(remove_blanks(a) + remove_blanks(b) =~= remove_blanks(a));
    } else {
        lemma_remove_blanks_concat(a, b.drop_last());
        assert((a + b).drop_last() =~= a + b.drop_last());
        assert((a + b).last() == b.last());
        if !is_blank(b.last()) {
            assert(remove_blanks(a) + remove_blanks(b.drop_last()).push(b.last()) =~= (remove_blanks(a)
                + remove_blanks(b.drop_last())).push(b.last()));
        }
    }
}

proof fn lemma_remove_blanks_all(s: Seq<char>)
    requires
        forall|i: int| 0 <= i < s.len() ==> is_blank(#[trigger] s[i]),
    ensures
        remove_blanks(s) == Seq::<char>::empty(),
    decreases s.len(),
{
    if s.len() > 0 {
        lemma_remove_blanks_all(s.drop_last());
    }
}

proof fn lemma_remove_brackets_concat(a: Seq<char>, b: Seq<char>)
    ensures
        remove_brackets(a + b) == remove_brackets(a) + remove_brackets(b),
    decreases b.len(),
{
    if b.len() == 0 {
        assert(a + b =~= a);
        assert(remove_brackets(a) + remove_brackets(b) =~= remove_brackets(a));
    } else {
        lemma_remove_brackets_concat(a, b.drop_last());
        assert((a + b).drop_last() =~= a + b.drop_last());
        assert((a + b).last() == b.last());
        if !is_bracket(b.last()) {
            assert(remove_brackets(a) + remove_brackets(b.drop_last()).push(b.last()) =~= (remove_brackets(a)
                + remove_brackets(b.drop_last())).push(b.last()));
        }
    }
}

proof fn lemma_remove_brackets_id(s: Seq<char>)
    requires
        avoids(s, '['),
        avoids(s, ']'),
    ensures
        remove_brackets(s) == s,
    decreases s.len(),
{
    if s.len() > 0 {
        lemma_remove_brackets_id(s.drop_last());
        assert(s.drop_last().push(s.last()) =~= s);
    }
}

proof fn lemma_split_prefix(a: Seq<char>, d: Seq<char>, b: Seq<char>)
    requires
        d.len() > 0,
        avoids(a, d[0]),
    ensures
        split_on(a + d + b, d) == seq![a] + split_on(b, d),
    decreases a.len(),
{
    let s = a + d + b;
    if a.len() == 0 {
        assert(s.subrange(0, d.len() as int) =~= d);
        assert(s.subrange(d.len() as int, s.len() as int) =~= b);
        assert(a =~= Seq::<char>::empty());
    } else {
        assert(s.subrange(0, d.len() as int)[0] == a[0]);
        assert(!starts_with(s, d));
        let a2 = a.drop_first();
        assert(s.drop_first() =~= a2 + d + b);
        lemma_split_prefix(a2, d, b);
        let x = split_on(b, d);
        assert(prepend_first(seq![s[0]], seq![a2] + x) =~= seq![seq![a[0]] + a2] + x);
        assert(seq![a[0]] + a2 =~= a);
    }
}

proof fn lemma_split_whole(a: Seq<char>, d: Seq<char>)
    requires
        d.len() > 0,
        lacks(a, d),
    ensures
        split_on(a, d) == seq![a],
    decreases a.len(),
{
    if a.len() == 0 {
        assert(a =~= Seq::<char>::empty());
    } else {
        assert(a.subrange(0, a.len() as int) =~= a);
        assert(!starts_with(a.subrange(0, a.len() as int), d));
        let a2 = a.drop_first();
        assert forall|i: int| 0 <= i <= a2.len() implies !starts_with(#[trigger] a2.subrange(i, a2.len() as int), d) by {
            assert(a2.subrange(i, a2.len() as int) =~= a.subrange(i + 1, a.len() as int));
        }
        lemma_split_whole(a2, d);
        assert(prepend_first(seq![a[0]], seq![a2]) =~= seq![seq![a[0]] + a2]);
        assert(seq![a[0]] + a2 =~= a);
    }
}

proof fn lemma_lacks_concat(a: Seq<char>, z: Seq<char>, d: Seq<char>)
    requires
        d.len() > 0,
        avoids(a, d[0]),
        lacks(z, d),
    ensures
        lacks(a + z, d),
{
    let s = a + z;
    assert forall|i: int| 0 <= i <= s.len() implies !starts_with(#[trigger] s.subrange(i, s.len() as int), d) by {
        let t = s.subrange(i, s.len() as int);
        if i < a.len() {
            if starts_with(t, d) {
                assert(t.subrange(0, d.len() as int)[0] == t[0]);
                assert(t[0] == a[i]);
            }
        } else {
            assert(t =~= z.subrange(i - a.len(), z.len() as int));
        }
    }
}

proof fn lemma_avoids_concat(a: Seq<char>, b: Seq<char>, c: char)
    requires
        avoids(a, c),
        avoids(b, c),
    ensures
        avoids(a + b, c),
{
    assert forall|i: int| 0 <= i < (a + b).len() implies (a + b)[i] != c by {
        if i >= a.len() {
            assert((a + b)[i] == b[i - a.len()]);
        }
    }
}

proof fn lemma_join_avoids(parts: Seq<Seq<char>>, sep: Seq<char>, c: char)
    requires
        avoids(sep, c),
        forall|i: int| 0 <= i < parts.len() ==> avoids(#[trigger] parts[i], c),
    ensures
        avoids(join(parts, sep), c),
    decreases parts.len(),
{
    if parts.len() > 1 {
        lemma_join_avoids(parts.drop_last(), sep, c);
        lemma_avoids_concat(join(parts.drop_last(), sep), sep, c);
        lemma_avoids_concat(join(parts.drop_last(), sep) + sep, parts.last(), c);
    }
}

proof fn lemma_blank_free_concat(a: Seq<char>, b: Seq<char>)
    requires
        blank_free(a),
        blank_free(b),
    ensures
        blank_free(a + b),
{
    assert forall|i: int| 0 <= i < (a + b).len() implies !is_blank(#[trigger] (a + b)[i]) by {
        if i >= a.len() {
            assert((a + b)[i] == b[i - a.len()]);
        }
    }
}

proof fn lemma_join_blank_free(parts: Seq<Seq<char>>, sep: Seq<char>)
    requires
        blank_free(sep),
        forall|i: int| 0 <= i < parts.len() ==> blank_free(#[trigger] parts[i]),
    ensures
        blank_free(join(parts, sep)),
    decreases parts.len(),
{
    if parts.len() > 1 {
        lemma_join_blank_free(parts.drop_last(), sep);
        lemma_blank_free_concat(join(parts.drop_last(), sep), sep);
        lemma_blank_free_concat(join(parts.drop_last(), sep) + sep, parts.last());
    }
}

proof fn lemma_join_front(parts: Seq<Seq<char>>, d: Seq<char>)
    requires
        parts.len() >= 2,
    ensures
        join(parts, d) == parts[0] + d + join(parts.drop_first(), d),
    decreases parts.len(),
{
    let rest = parts.drop_first();
    if parts.len() == 2 {
        assert(join(parts.drop_last(), d) == parts[0]);
        assert(join(rest, d) == parts[1]);
        assert(join(parts, d) =~= parts[0] + d + join(rest, d));
    } else {
        lemma_join_front(parts.drop_last(), d);
        assert(parts.drop_last().drop_first() =~= rest.drop_last());
        assert(join(parts, d) =~= parts[0] + d + join(rest, d));
    }
}

proof fn lemma_split_join(p: Seq<char>, parts: Seq<Seq<char>>, z: Seq<char>, d: Seq<char>)
    requires
        d.len() > 0,
        parts.len() >= 1,
        avoids(p, d[0]),
        forall|i: int| 0 <= i < parts.len() ==> avoids(#[trigger] parts[i], d[0]),
        lacks(z, d),
    ensures
        split_on(p + join(parts, d) + z, d) == Seq::new(
            parts.len(),
            |i: int|
                (if i == 0 { p } else { Seq::empty() }) + parts[i] + (if i == parts.len() - 1 { z } else { Seq::empty() }),
        ),
    decreases parts.len(),
{
    let n = parts.len();
    let want = Seq::new(
        n,
        |i: int| (if i == 0 { p } else { Seq::empty() }) + parts[i] + (if i == n - 1 { z } else { Seq::empty() }),
    );
    if n == 1 {
        lemma_avoids_concat(p, parts[0], d[0]);
        lemma_lacks_concat(p + parts[0], z, d);
        lemma_split_whole(p + parts[0] + z, d);
        assert(split_on(p + join(parts, d) + z, d) =~= want);
    } else {
        let rest = parts.drop_first();
        lemma_join_front(parts, d);
        lemma_avoids_concat(p, parts[0], d[0]);
        let tail = join(rest, d) + z;
        assert(p + join(parts, d) + z =~= (p + parts[0]) + d + tail);
        lemma_split_prefix(p + parts[0], d, tail);
        lemma_split_join(Seq::empty(), rest, z, d);
        assert(Seq::<char>::empty() + join(rest, d) + z =~= tail);
        let inner = split_on(tail, d);
        assert(seq![p + parts[0]] + inner =~= want) by {
            assert forall|i: int| 0 <= i < n implies #[trigger] (seq![p + parts[0]] + inner)[i] == want[i] by {
                if i == 0 {
                    assert(want[0] =~= p + parts[0]);
                } else {
                    assert(inner[i - 1] == (Seq::<char>::empty() + rest[i - 1]) + (if i - 1 == rest.len() - 1 {
                        z
                    } else {
                        Seq::empty()
                    }));
                    assert(want[i] =~= inner[i - 1]);
                }
            }
        }
    }
}

proof fn lemma_join_bracketed(parts: Seq<Seq<char>>)
    requires
        parts.len() >= 1,
    ensures
        join(bracket_each(parts), token_delimiter()) == seq!['['] + join(parts, row_delimiter()) + seq![']'],
    decreases parts.len(),
{
    let b = bracket_each(parts);
    if parts.len() == 1 {
        assert(join(b, token_delimiter()) == b[0]);
        assert(join(parts, row_delimiter()) == parts[0]);
    } else {
        let front = parts.drop_last();
        lemma_join_bracketed(front);
        assert(b.drop_last() =~= bracket_each(front));
        assert(join(b, token_delimiter()) =~= seq!['['] + join(parts, row_delimiter()) + seq![']']);
    }
}

proof fn lemma_index_split(p: int, rows: int, cols: int)
    requires
        0 <= p < rows * cols,
        0 < cols,
    ensures
        0 <= p / cols < rows,
        0 <= p % cols < cols,
        (p / cols) * cols + p % cols == p,
{
    lemma_fundamental_div_mod(p, cols);
    lemma_mod_bound(p, cols);
    lemma_div_pos_is_pos(p, cols);
    let q = p / cols;
    let m = p % cols;
    assert(q * cols == cols * q) by (nonlinear_arith);
    assert(q < rows) by (nonlinear_arith)
        requires
            p == cols * q + m,
            0 <= m,
            p < rows * cols,
            0 < cols,
    ;
}

/// Reading the text of a matrix, with blanks before and after it, and writing
/// the result again gives back the text without those blanks, whenever every
/// cell is written as a token that holds no blank, bracket or comma, that
/// reads as a number, and that is how that number is written with the same
/// number of decimal places.
pub proof fn lemma_literal_round_trip<T, P: Fn(&[char]) -> Option<T>, F: Fn(T, usize) -> String>(
    lead: Seq<char>,
    trail: Seq<char>,
    texts: Seq<Seq<char>>,
    rows: nat,
    cols: nat,
    decimal_places: usize,
    parse: P,
    fmt: F,
)
    requires
        forall|i: int| 0 <= i < lead.len() ==> is_blank(#[trigger] lead[i]),
        forall|i: int| 0 <= i < trail.len() ==> is_blank(#[trigger] trail[i]),
        rows >= 1,
        cols >= 1,
        texts.len() == rows * cols,
        forall|i: int| 0 <= i < texts.len() ==> plain_token(#[trigger] texts[i]),
        forall|i: int|
            0 <= i < texts.len() ==> (#[trigger] parsed(parse, texts[i])) is Some && formatted(
                fmt,
                parsed(parse, texts[i])->Some_0,
                decimal_places,
            ) == texts[i],
    ensures
        literal_readable(lead + render(texts, rows, cols) + trail, parse),
        rendered(grid_model(literal_grid(lead + render(texts, rows, cols) + trail), parse), decimal_places, fmt)
            == render(texts, rows, cols),
{
    let text = render(texts, rows, cols);
    let d = row_delimiter();
    let comma = token_delimiter();
    let bodies = row_bodies(texts, rows, cols);
    let g = row_grid(texts, cols, rows);
    let open2 = seq!['[', '['];
    let close2 = seq![']', ']'];
    // The cells of each row are plain tokens, and the text of each row holds
    // no blank or bracket.
    assert forall|r: int| 0 <= r < rows implies {
        &&& (#[trigger] g[r]).len() == cols
        &&& forall|c: int| 0 <= c < cols ==> #[trigger] g[r][c] == texts[r * cols + c]
        &&& blank_free(bodies[r])
        &&& avoids(bodies[r], '[')
        &&& avoids(bodies[r], ']')
    } by {
        lemma_row_end(r, rows as int, cols as int);
        let cells = row_cells(texts, cols, r);
        assert forall|c: int| 0 <= c < cols implies #[trigger] cells[c] == texts[r * cols + c] by {
            lemma_cell_index(r, c, rows as int, cols as int);
        }
        assert forall|c: int| 0 <= c < cells.len() implies plain_token(#[trigger] cells[c]) by {
            lemma_cell_index(r, c, rows as int, cols as int);
            assert(plain_token(texts[r * cols + c]));
        }
        lemma_join_blank_free(cells, comma);
        lemma_join_avoids(cells, comma, '[');
        lemma_join_avoids(cells, comma, ']');
    }
    // The text is the row texts joined by `],[`, inside double brackets.
    let joined = join(bodies, d);
    assert(row_texts(texts, cols, rows) =~= bracket_each(bodies));
    lemma_join_bracketed(bodies);
    assert(text =~= open2 + joined + close2);
    // It holds no blank, so reading drops nothing.
    assert forall|r: int| 0 <= r < bodies.len() implies blank_free(#[trigger] bodies[r]) && avoids(
        bodies[r],
        ']',
    ) by {
        assert(g[r].len() == cols);
    }
    lemma_join_blank_free(bodies, d);
    lemma_blank_free_concat(open2, joined);
    lemma_blank_free_concat(open2 + joined, close2);
    lemma_remove_blanks_id(text);
    lemma_remove_blanks_all(lead);
    lemma_remove_blanks_all(trail);
    lemma_remove_blanks_concat(lead + text, trail);
    lemma_remove_blanks_concat(lead, text);
    assert(remove_blanks(lead + text + trail) =~= text);
    assert(literal_grid(lead + text + trail) == literal_grid(text));
    // Splitting at `],[` gives each row's text, with the outer brackets on
    // the first and the last.
    assert forall|i: int| 0 <= i <= close2.len() implies !starts_with(#[trigger] close2.subrange(i, close2.len() as int), d) by {}
    lemma_split_join(open2, bodies, close2, d);
    let pieces = split_on(remove_blanks(text), d);
    assert(pieces.len() == rows);
    reveal_with_fuel(remove_brackets, 3);
    assert(remove_brackets(open2) =~= Seq::<char>::empty());
    assert(remove_brackets(close2) =~= Seq::<char>::empty());
    assert(remove_brackets(Seq::<char>::empty()) =~= Seq::<char>::empty());
    // Each row's text splits at commas into its cells.
    assert(literal_grid(text) =~= g) by {
        assert forall|r: int| 0 <= r < rows implies #[trigger] literal_grid(text)[r] == g[r] by {
            assert(g[r].len() == cols);
            let first: Seq<char> = if r == 0 { open2 } else { Seq::empty() };
            let last: Seq<char> = if r == rows - 1 { close2 } else { Seq::empty() };
            assert(pieces[r] == first + bodies[r] + last);
            lemma_remove_brackets_concat(first + bodies[r], last);
            lemma_remove_brackets_concat(first, bodies[r]);
            lemma_remove_brackets_id(bodies[r]);
            assert(remove_brackets(pieces[r]) =~= bodies[r]);
            let cells = g[r];
            assert forall|c: int| 0 <= c < cells.len() implies avoids(#[trigger] cells[c], ',') by {
                lemma_row_end(r, rows as int, cols as int);
                lemma_cell_index(r, c, rows as int, cols as int);
                assert(plain_token(texts[r * cols + c]));
            }
            assert forall|i: int| 0 <= i <= 0 implies !starts_with(
                #[trigger] Seq::<char>::empty().subrange(i, 0),
                comma,
            ) by {}
            lemma_split_join(Seq::empty(), cells, Seq::empty(), comma);
            assert(Seq::<char>::empty() + join(cells, comma) + Seq::<char>::empty() =~= bodies[r]);
            assert(split_on(bodies[r], comma) =~= cells);
        }
    }
    // Every token reads, and writing what it reads gives it back.
    assert(all_parse(g, parse)) by {
        assert forall|r: int, c: int| 0 <= r < g.len() && 0 <= c < g[r].len() implies #[trigger] parsed(
            parse,
            g[r][c],
        ) is Some by {
            lemma_cell_index(r, c, rows as int, cols as int);
            assert(g[r][c] == texts[r * cols + c]);
        }
    }
    lemma_flatten_rows(texts, cols, rows);
    assert(texts.subrange(0, (rows * cols) as int) =~= texts);
    let m = grid_model(g, parse);
    assert(g.last().len() == cols);
    let written = Seq::new(m.cells.len(), |i: int| formatted(fmt, m.cells[i], decimal_places));
    assert(written =~= texts);
}

proof fn lemma_flatten_rows(texts: Seq<Seq<char>>, cols: nat, n: nat)
    requires
        n * cols <= texts.len(),
    ensures
        flatten(row_grid(texts, cols, n)) == texts.subrange(0, (n * cols) as int),
    decreases n,
{
    if n > 0 {
        let m = (n - 1) as nat;
        assert(n * cols == m * cols + cols) by (nonlinear_arith)
            requires
                n == m + 1,
        ;
        lemma_flatten_rows(texts, cols, m);
        let gn = row_grid(texts, cols, n);
        assert(gn.drop_last() =~= row_grid(texts, cols, m));
        assert(gn.last() == row_cells(texts, cols, m as int));
        assert(flatten(gn) == flatten(gn.drop_last()) + gn.last());
        assert(texts.subrange(0, (n * cols) as int) =~= texts.subrange(0, (m * cols) as int) + row_cells(texts, cols, m as int));
    } else {
        assert(n * cols == 0) by (nonlinear_arith)
            requires
                n == 0,
        ;
        assert(texts.subrange(0, 0) =~= Seq::<Seq<char>>::empty());
        assert(row_grid(texts, cols, n) =~= Seq::<Seq<Seq<char>>>::empty());
    }
}

/// The characters of each vector in `v`.
pub open spec fn char_seqs(v: Seq<Vec<char>>) -> Seq<Seq<char>> {
    v.map_values(|x: Vec<char>| x@)
}

/// The characters of each token in a grid of token vectors.
pub open spec fn token_grid(g: Seq<Vec<Vec<char>>>) -> Seq<Seq<Seq<char>>> {
    g.map_values(|row: Vec<Vec<char>>| char_seqs(row@))
}

/// The characters of `s` without blanks.
fn chars_without_blanks(s: &str) -> (r: Vec<char>)
    ensures
        r@ == remove_blanks(s@),
{
    let n = s.unicode_len();
    let mut r: Vec<char> = Vec::new();
    let mut i: usize = 0;
    while i < n
        invariant
            n == s@.len(),
            i <= n,
            r@ == remove_blanks(s@.subrange(0, i as int)),
        decreases n - i,
    {
        let c = s.get_char(i);
        let ghost before = s@.subrange(0, i as int);
        let ghost after = s@.subrange(0, i + 1);
        assert(after.drop_last() =~= before);
        if !blank(c) {
            r.push(c);
        }
        i += 1;
    }
    assert(s@.subrange(0, n as int) =~= s@);
    r
}

/// The characters of `s` without brackets.
fn chars_without_brackets(s: &Vec<char>) -> (r: Vec<char>)
    ensures
        r@ == remove_brackets(s@),
{
    let n = s.len();
    let mut r: Vec<char> = Vec::new();
    let mut i: usize = 0;
    while i < n
        invariant
            n == s@.len(),
            i <= n,
            r@ == remove_brackets(s@.subrange(0, i as int)),
        decreases n - i,
    {
        let c = s[i];
        let ghost before = s@.subrange(0, i as int);
        let ghost after = s@.subrange(0, i + 1);
        assert(after.drop_last() =~= before);
        if c != '[' && c != ']' {
            r.push(c);
        }
        i += 1;
    }
    assert(s@.subrange(0, n as int) =~= s@);
    r
}

/// Whether the delimiter `d` occurs in `s` at position `i`.
fn occurs_at(s: &Vec<char>, d: &Vec<char>, i: usize) -> (r: bool)
    requires
        i <= s.len(),
        d.len() > 0,
    ensures
        r == starts_with(s@.subrange(i as int, s@.len() as int), d@),
{
    let n = s.len();
    let dl = d.len();
    if dl > n - i {
        return false;
    }
    let mut t: usize = 0;
    while t < dl
        invariant
            n == s@.len(),
            dl == d@.len(),
            i + dl <= n,
            t <= dl,
            forall|u: int| 0 <= u < t ==> s@[i + u] == d@[u],
        decreases dl - t,
    {
        if s[i + t] != d[t] {
            assert(s@.subrange(i as int, n as int).subrange(0, dl as int)[t as int] != d@[t as int]);
            return false;
        }
        t += 1;
    }
    assert(s@.subrange(i as int, n as int).subrange(0, dl as int) =~= d@);
    true
}

/// The pieces of `s` between the occurrences of `d`.
fn split_chars(s: &Vec<char>, d: &Vec<char>) -> (r: Vec<Vec<char>>)
    requires
        d.len() > 0,
    ensures
        char_seqs(r@) == split_on(s@, d@),
{
    let n = s.len();
    let dl = d.len();
    let mut done: Vec<Vec<char>> = Vec::new();
    let mut cur: Vec<char> = Vec::new();
    let mut i: usize = 0;
    proof {
        assert(s@.subrange(0, n as int) =~= s@);
        lemma_split_on_nonempty(s@, d@);
        let x = split_on(s@, d@);
        assert(Seq::<char>::empty() + x[0] =~= x[0]);
        assert(prepend_first(cur@, x) =~= x);
        assert(char_seqs(done@) + x =~= x);
    }
    while i < n
        invariant
            n == s@.len(),
            dl == d@.len(),
            dl > 0,
            i <= n,
            split_on(s@, d@) == char_seqs(done@) + prepend_first(cur@, split_on(s@.subrange(i as int, n as int), d@)),
        decreases n - i,
    {
        let ghost rest = s@.subrange(i as int, n as int);
        if occurs_at(s, d, i) {
            let ghost next = s@.subrange(i + dl, n as int);
            assert(rest.subrange(dl as int, rest.len() as int) =~= next);
            proof {
                lemma_split_on_nonempty(next, d@);
                let x = split_on(next, d@);
                assert(split_on(rest, d@) == seq![Seq::<char>::empty()] + x);
                assert(prepend_first(cur@, seq![Seq::<char>::empty()] + x) =~= seq![cur@] + x);
                assert(Seq::<char>::empty() + x[0] =~= x[0]);
                assert(prepend_first(Seq::<char>::empty(), x) =~= x);
            }
            let ghost old_done = done@;
            let ghost piece = cur@;
            done.push(cur);
            assert(char_seqs(done@) =~= char_seqs(old_done) + seq![piece]);
            cur = Vec::new();
            i += dl;
        } else {
            let c = s[i];
            let ghost next = s@.subrange(i + 1, n as int);
            assert(rest.drop_first() =~= next);
            proof {
                lemma_split_on_nonempty(next, d@);
                let x = split_on(next, d@);
                assert(split_on(rest, d@) == prepend_first(seq![c], x));
                assert(cur@ + (seq![c] + x[0]) =~= cur@.push(c) + x[0]);
                assert(prepend_first(cur@, prepend_first(seq![c], x)) =~= prepend_first(cur@.push(c), x));
            }
            cur.push(c);
            i += 1;
        }
    }
    proof {
        assert(s@.subrange(n as int, n as int) =~= Seq::<char>::empty());
        assert(prepend_first(cur@, seq![Seq::<char>::empty()]) =~= seq![cur@]);
    }
    let ghost old_done = done@;
    let ghost piece = cur@;
    done.push(cur);
    assert(char_seqs(done@) =~= char_seqs(old_done) + seq![piece]);
    done
}

/// The tokens of the first `n` rows of `rows`.
pub open spec fn rows_tokens(rows: Seq<Seq<char>>, n: int) -> Seq<Seq<Seq<char>>> {
    Seq::new(n as nat, |k: int| split_on(remove_brackets(rows[k]), token_delimiter()))
}

/// The tokens of the literal `input`, row by row.
fn tokenize(input: &str) -> (r: Vec<Vec<Vec<char>>>)
    ensures
        token_grid(r@) == literal_grid(input@),
{
    let cleaned = chars_without_blanks(input);
    let row_delim: Vec<char> = vec![']', ',', '['];
    let token_delim: Vec<char> = vec![','];
    assert(row_delim@ =~= row_delimiter());
    assert(token_delim@ =~= token_delimiter());
    let rows = split_chars(&cleaned, &row_delim);
    let ghost row_seqs = split_on(remove_blanks(input@), row_delimiter());
    let mut grid: Vec<Vec<Vec<char>>> = Vec::new();
    let mut r: usize = 0;
    while r < rows.len()
        invariant
            row_seqs == split_on(remove_blanks(input@), row_delimiter()),
            char_seqs(rows@) == row_seqs,
            token_delim@ == token_delimiter(),
            r <= rows.len(),
            token_grid(grid@) == rows_tokens(row_seqs, r as int),
        decreases rows.len() - r,
    {
        assert(rows@[r as int]@ == row_seqs[r as int]);
        let bare = chars_without_brackets(&rows[r]);
        let tokens = split_chars(&bare, &token_delim);
        let ghost old_grid = grid@;
        let ghost new_row = char_seqs(tokens@);
        assert(new_row == split_on(remove_brackets(row_seqs[r as int]), token_delimiter()));
        grid.push(tokens);
        r += 1;
        proof {
            assert(grid@ =~= old_grid.push(tokens));
            assert(token_grid(grid@) =~= token_grid(old_grid).push(new_row));
            assert(rows_tokens(row_seqs, r as int) =~= rows_tokens(row_seqs, r - 1).push(new_row));
        }
    }
    assert(rows_tokens(row_seqs, rows.len() as int) =~= literal_grid(input@));
    grid
}

impl<T: Copy> Matrix<T> {
    /// Reads a matrix from its bracketed text, each token read by `parse`.
    /// The matrix has one row per row of the text and as many columns as the
    /// last row has tokens; its cells are all the tokens read in row order.
    /// Rows of different lengths are not checked against each other: the
    /// matrix is then not well formed. Fails with `ParseError` exactly when a
    /// token is not a number.
    pub fn from_str<F: Fn(&[char]) -> Option<T>>(input: &str, parse: F) -> (r: Result<Matrix<T>, MatrixError>)
        requires
            pure_parser(parse),
        ensures
            match r {
                Ok(m) => literal_readable(input@, parse) && m@ == grid_model(literal_grid(input@), parse) && (
                is_rectangular(literal_grid(input@)) ==> m@.wf()),
                Err(e) => !literal_readable(input@, parse) && e == MatrixError::ParseError,
            },
    {
        let grid = tokenize(input);
        let ghost g = literal_grid(input@);
        let rows = grid.len();
        proof {
            lemma_split_on_nonempty(remove_blanks(input@), row_delimiter());
            assert(g.len() >= 1);
            assert(token_grid(grid@).len() == grid@.len());
            assert(flatten(g.subrange(0, 0)) + g[0].subrange(0, 0) =~= Seq::<Seq<char>>::empty());
        }
        let mut data: Vec<T> = Vec::new();
        let mut r: usize = 0;
        while r < rows
            invariant
                g == literal_grid(input@),
                token_grid(grid@) == g,
                pure_parser(parse),
                rows == g.len(),
                rows >= 1,
                r <= rows,
                forall|k: int, c: int| 0 <= k < r && 0 <= c < g[k].len() ==> #[trigger] parsed(parse, g[k][c]) is Some,
                data@ == values_of(flatten(g.subrange(0, r as int)), parse),
            decreases rows - r,
        {
            let cols = grid[r].len();
            assert(cols == g[r as int].len());
            assert(flatten(g.subrange(0, r as int)) + g[r as int].subrange(0, 0) =~= flatten(g.subrange(0, r as int)));
            let mut c: usize = 0;
            while c < cols
                invariant
                    g == literal_grid(input@),
                    token_grid(grid@) == g,
                    pure_parser(parse),
                    rows == g.len(),
                    r < rows,
                    cols == g[r as int].len(),
                    c <= cols,
                    forall|k: int, c2: int|
                        (0 <= k < r && 0 <= c2 < g[k].len()) || (k == r && 0 <= c2 < c) ==> #[trigger] parsed(
                            parse,
                            g[k][c2],
                        ) is Some,
                    data@ == values_of(flatten(g.subrange(0, r as int)) + g[r as int].subrange(0, c as int), parse),
                decreases cols - c,
            {
                let token = grid[r][c].as_slice();
                assert(token@ == g[r as int][c as int]);
                let value = parse(token);
                proof {
                    lemma_parsed(parse, token, value);
                }
                match value {
                    Some(x) => {
                        let ghost before = flatten(g.subrange(0, r as int)) + g[r as int].subrange(0, c as int);
                        data.push(x);
                        c += 1;
                        let ghost after = flatten(g.subrange(0, r as int)) + g[r as int].subrange(0, c as int);
                        assert(after =~= before.push(g[r as int][c - 1]));
                        assert(data@ =~= values_of(after, parse));
                    },
                    None => {
                        assert(!all_parse(g, parse));
                        return Err(MatrixError::ParseError);
                    },
                }
            }
            proof {
                let done = g.subrange(0, r + 1);
                assert(done.drop_last() =~= g.subrange(0, r as int));
                assert(g[r as int].subrange(0, cols as int) =~= g[r as int]);
                assert(flatten(done) == flatten(g.subrange(0, r as int)) + g[r as int]);
            }
            r += 1;
        }
        assert(all_parse(g, parse));
        assert(g.subrange(0, rows as int) =~= g);
        let cols = grid[rows - 1].len();
        let m = Matrix::from_parts(data, rows, cols);
        proof {
            if is_rectangular(g) {
                lemma_flatten_len(g, g[0].len());
            }
        }
        assert(m@ =~= grid_model(g, parse));
        Ok(m)
    }

    /// Replaces `self` by the matrix read from `input`, as `from_str` reads
    /// it. On failure `self` is left empty.
    pub fn set<F: Fn(&[char]) -> Option<T>>(&mut self, input: &str, parse: F) -> (r: Result<(), MatrixError>)
        requires
            pure_parser(parse),
        ensures
            match r {
                Ok(_) => literal_readable(input@, parse) && final(self)@ == grid_model(literal_grid(input@), parse) && (
                is_rectangular(literal_grid(input@)) ==> final(self)@.wf()),
                Err(e) => !literal_readable(input@, parse) && e == MatrixError::ParseError && final(self)@.rows == 0
                    && final(self)@.cols == 0 && final(self)@.cells.len() == 0,
            },
    {
        self.clear();
        match Matrix::from_str(input, parse) {
            Ok(m) => {
                *self = m;
                Ok(())
            },
            Err(e) => Err(e),
        }
    }
}

impl<T: Copy> Matrix<T> {
    /// The bracketed text of `self`, each cell written by `fmt` with
    /// `decimal_places` digits after the point.
    pub fn to_string_fmt<F: Fn(T, usize) -> String>(&self, decimal_places: usize, fmt: F) -> (r: String)
        requires
            self@.wf(),
            pure_formatter(fmt),
        ensures
            r@ == rendered(self@, decimal_places, fmt),
    {
        let (rows, cols) = self.size();
        let cells = self.as_vec();
        let total = cells.len();
        let ghost texts = Seq::new(cells@.len(), |i: int| formatted(fmt, cells@[i], decimal_places));
        let comma = ",";
        proof {
            reveal_strlit("[");
            reveal_strlit("]");
            reveal_strlit(",");
        }
        let mut out = String::new();
        out.append("[");
        let n: usize = if cols == 0 { 0 } else { rows };
        let mut r: usize = 0;
        while r < n
            invariant
                pure_formatter(fmt),
                cells@ == self@.cells,
                total == cells@.len(),
                self@.wf(),
                rows == self@.rows,
                cols == self@.cols,
                n == (if cols == 0 { 0 } else { rows }),
                texts == Seq::new(cells@.len(), |i: int| formatted(fmt, cells@[i], decimal_places)),
                comma@ == token_delimiter(),
                r <= n,
                out@ == seq!['['] + join(row_texts(texts, cols as nat, r as nat), token_delimiter()),
            decreases n - r,
        {
            proof {
                reveal_strlit("[");
                reveal_strlit("]");
            }
            let mut line = String::new();
            line.append("[");
            proof {
                lemma_row_end(r as int, rows as int, cols as int);
                assert(texts.subrange(r * cols, r * cols + 0) =~= Seq::<Seq<char>>::empty());
                assert(line@ =~= seq!['['] + join(texts.subrange(r * cols, r * cols + 0), token_delimiter()));
            }
            let mut c: usize = 0;
            while c < cols
                invariant
                    pure_formatter(fmt),
                    cells@ == self@.cells,
                    total == cells@.len(),
                    self@.wf(),
                    rows == self@.rows,
                    cols == self@.cols,
                    r < rows,
                    r * cols + cols <= rows * cols,
                    texts == Seq::new(cells@.len(), |i: int| formatted(fmt, cells@[i], decimal_places)),
                    comma@ == token_delimiter(),
                    c <= cols,
                    line@ == seq!['['] + join(texts.subrange(r * cols, r * cols + c), token_delimiter()),
                decreases cols - c,
            {
                proof {
                    lemma_cell_index(r as int, c as int, rows as int, cols as int);
                }
                let ghost before = line@;
                if c > 0 {
                    line.append(comma);
                }
                let text = fmt(cells[r * cols + c], decimal_places);
                proof {
                    lemma_formatted(fmt, cells@[r * cols + c], decimal_places, text);
                }
                line.append(text.as_str());
                proof {
                    let part = texts.subrange(r * cols, r * cols + c + 1);
                    assert(part.drop_last() =~= texts.subrange(r * cols, r * cols + c));
                    assert(part.last() == text@);
                    if c > 0 {
                        assert(line@ =~= seq!['['] + (join(part.drop_last(), token_delimiter()) + token_delimiter()
                            + part.last()));
                    } else {
                        assert(line@ =~= seq!['['] + part[0]);
                    }
                }
                c += 1;
            }
            line.append("]");
            let ghost done = out@;
            if r > 0 {
                out.append(comma);
            }
            out.append(line.as_str());
            proof {
                let all = row_texts(texts, cols as nat, (r + 1) as nat);
                assert(all.drop_last() =~= row_texts(texts, cols as nat, r as nat));
                assert(all.last() =~= line@);
                if r > 0 {
                    assert(out@ =~= seq!['['] + (join(all.drop_last(), token_delimiter()) + token_delimiter()
                        + all.last()));
                } else {
                    assert(out@ =~= seq!['['] + all[0]);
                }
            }
            r += 1;
        }
        out.append("]");
        proof {
            reveal_strlit("]");
            assert(out@ =~= render(texts, rows as nat, cols as nat));
        }
        out
    }

    /// The bracketed text of `self` with no decimal places.
    pub fn to_string<F: Fn(T, usize) -> String>(&self, fmt: F) -> (r: String)
        requires
            self@.wf(),
            pure_formatter(fmt),
        ensures
            r@ == rendered(self@, 0, fmt),
    {
        self.to_string_fmt(0, fmt)
    }
}

} // verus!
