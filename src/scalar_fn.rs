//! Scalar operations handed to the matrix and network code as closures.
//!
//! The element type of a matrix is left to the caller, and so is its
//! arithmetic: adding, subtracting and multiplying two elements, the
//! activation function, reading a number from text and writing one out. Every such
//! closure is required to be *pure*: callable on every argument, and giving
//! the same result whenever it is called with the same arguments. The result
//! of a pure closure is then named by a spec function (`call1`, `call2`, `parsed`, `formatted`)
//! and the contracts of the library are stated exactly in terms of it.
use vstd::prelude::*;

verus! {

/// `f` accepts every argument and is deterministic.
pub open spec fn pure1<A, R, F: Fn(A) -> R>(f: F) -> bool {
    &&& forall|a: A| #[trigger] f.requires((a,))
    &&& forall|a: A, r1: R, r2: R|
        #[trigger] f.ensures((a,), r1) && #[trigger] f.ensures((a,), r2) ==> r1 == r2
}

/// The value that the pure closure `f` returns on `a`.
pub open spec fn call1<A, R, F: Fn(A) -> R>(f: F, a: A) -> R {
    choose|r: R| #[trigger] f.ensures((a,), r)
}

pub proof fn lemma_call1<A, R, F: Fn(A) -> R>(f: F, a: A, r: R)
    requires
        pure1(f),
        f.ensures((a,), r),
    ensures
        call1(f, a) == r,
{
}

/// `f` accepts every pair of arguments and is deterministic.
pub open spec fn pure2<A, B, R, F: Fn(A, B) -> R>(f: F) -> bool {
    &&& forall|a: A, b: B| #[trigger] f.requires((a, b))
    &&& forall|a: A, b: B, r1: R, r2: R|
        #[trigger] f.ensures((a, b), r1) && #[trigger] f.ensures((a, b), r2) ==> r1 == r2
}

/// The value that the pure closure `f` returns on `(a, b)`.
pub open spec fn call2<A, B, R, F: Fn(A, B) -> R>(f: F, a: A, b: B) -> R {
    choose|r: R| #[trigger] f.ensures((a, b), r)
}

pub proof fn lemma_call2<A, B, R, F: Fn(A, B) -> R>(f: F, a: A, b: B, r: R)
    requires
        pure2(f),
        f.ensures((a, b), r),
    ensures
        call2(f, a, b) == r,
{
}

/// `f` reads a number from text: it accepts every slice of characters, and
/// its result depends on those characters alone.
pub open spec fn pure_parser<T, F: Fn(&[char]) -> Option<T>>(f: F) -> bool {
    &&& forall|t: &[char]| #[trigger] f.requires((t,))
    &&& forall|t1: &[char], t2: &[char], r1: Option<T>, r2: Option<T>|
        t1@ == t2@ && #[trigger] f.ensures((t1,), r1) && #[trigger] f.ensures((t2,), r2) ==> r1
            == r2
}

/// `r` is what `f` returns on a slice that holds the characters `s`.
pub open spec fn parse_outcome<T, F: Fn(&[char]) -> Option<T>>(f: F, s: Seq<char>, r: Option<T>) -> bool {
    exists|t: &[char]| t@ == s && #[trigger] f.ensures((t,), r)
}

/// The value that the pure parser `f` returns on the characters `s`.
pub open spec fn parsed<T, F: Fn(&[char]) -> Option<T>>(f: F, s: Seq<char>) -> Option<T> {
    choose|r: Option<T>| #[trigger] parse_outcome(f, s, r)
}

pub proof fn lemma_parsed<T, F: Fn(&[char]) -> Option<T>>(f: F, t: &[char], r: Option<T>)
    requires
        pure_parser(f),
        f.ensures((t,), r),
    ensures
        parsed(f, t@) == r,
{
    assert(parse_outcome(f, t@, r));
}

/// `f` writes a number as text with a given number of decimal places: it
/// accepts every argument, and the characters of its result depend on the
/// arguments alone.
pub open spec fn pure_formatter<T, F: Fn(T, usize) -> String>(f: F) -> bool {
    &&& forall|x: T, d: usize| #[trigger] f.requires((x, d))
    &&& forall|x: T, d: usize, s1: String, s2: String|
        #[trigger] f.ensures((x, d), s1) && #[trigger] f.ensures((x, d), s2) ==> s1@ == s2@
}

/// `s` is the text of a string that `f` returns on `(x, d)`.
pub open spec fn format_outcome<T, F: Fn(T, usize) -> String>(
    f: F,
    x: T,
    d: usize,
    s: Seq<char>,
) -> bool {
    exists|r: String| r@ == s && #[trigger] f.ensures((x, d), r)
}

/// The text that the pure formatter `f` writes for `x` with `d` decimal places.
pub open spec fn formatted<T, F: Fn(T, usize) -> String>(f: F, x: T, d: usize) -> Seq<char> {
    choose|s: Seq<char>| #[trigger] format_outcome(f, x, d, s)
}

pub proof fn lemma_formatted<T, F: Fn(T, usize) -> String>(f: F, x: T, d: usize, r: String)
    requires
        pure_formatter(f),
        f.ensures((x, d), r),
    ensures
        formatted(f, x, d) == r@,
{
    assert(format_outcome(f, x, d, r@));
}

} // verus!
