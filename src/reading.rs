//! What every reader of the pair stream promises: it only moves forward, and an
//! error names the place where reading stopped.
use vstd::prelude::*;

use crate::value::CodePair;
use crate::value::DxfError;

verus! {

/// `after` is what is left of `before` once some pairs have been taken.
pub open spec fn suffix_of(before: Seq<CodePair>, after: Seq<CodePair>) -> bool {
    after.len() <= before.len() && after == before.skip(before.len() - after.len())
}

/// Reading went from `before` to `after`, and `p` was the last pair taken.
pub open spec fn stopped_at(before: Seq<CodePair>, after: Seq<CodePair>, p: CodePair) -> bool {
    &&& suffix_of(before, after)
    &&& after.len() < before.len()
    &&& before[before.len() - after.len() - 1] == p
}

/// The error names the place where reading from `before` stopped at `after`:
/// the pair taken last, its group code and offset, or the end of the input.
pub open spec fn error_in_place(before: Seq<CodePair>, after: Seq<CodePair>, e: DxfError) -> bool {
    match e {
        DxfError::UnexpectedCodePair(p, _) => stopped_at(before, after, p),
        DxfError::UnexpectedCode(code, offset) => exists|p: CodePair|
            stopped_at(before, after, p) && p.code == code && p.offset == offset,
        DxfError::WrongValueType(code, offset) => exists|p: CodePair|
            stopped_at(before, after, p) && p.code == code && p.offset == offset,
        DxfError::MalformedHandle(offset) => exists|p: CodePair|
            stopped_at(before, after, p) && p.offset == offset,
        DxfError::MalformedHexData(offset) => exists|p: CodePair|
            stopped_at(before, after, p) && p.offset == offset,
        DxfError::UnexpectedEndOfInput => suffix_of(before, after) && after.len() == 0,
    }
}

/// What a reader of the stream promises on every outcome.
pub open spec fn read_step<T>(before: Seq<CodePair>, after: Seq<CodePair>, r: Result<T, DxfError>) -> bool {
    match r {
        Ok(_) => suffix_of(before, after),
        Err(e) => error_in_place(before, after, e),
    }
}

/// Nothing read yet.
pub proof fn lemma_suffix_refl(s: Seq<CodePair>)
    ensures
        suffix_of(s, s),
{
    assert(s.skip(0) =~= s);
}

/// One more pair taken.
pub proof fn lemma_suffix_next(a: Seq<CodePair>, b: Seq<CodePair>)
    requires
        suffix_of(a, b),
        b.len() > 0,
    ensures
        suffix_of(a, b.skip(1)),
        stopped_at(a, b.skip(1), b[0]),
{
    assert(b.skip(1) =~= a.skip(a.len() - (b.len() - 1)));
    assert(a[a.len() - b.len()] == b[0]);
}

/// Reading on from where an earlier read left off keeps both promises.
pub proof fn lemma_read_step_chain<T>(
    a: Seq<CodePair>,
    b: Seq<CodePair>,
    c: Seq<CodePair>,
    r: Result<T, DxfError>,
)
    requires
        suffix_of(a, b),
        read_step(b, c, r),
    ensures
        read_step(a, c, r),
{
    match r {
        Ok(_) => {
            assert(c =~= a.skip(a.len() - c.len()));
        },
        Err(e) => {
            assert(b.skip(b.len() - c.len()) =~= a.skip(a.len() - c.len()));
            match e {
                DxfError::UnexpectedCodePair(p, _) => {
                    assert(a[a.len() - c.len() - 1] == b[b.len() - c.len() - 1]);
                },
                DxfError::UnexpectedCode(code, offset) => {
                    let p = choose|p: CodePair| stopped_at(b, c, p) && p.code == code && p.offset == offset;
                    assert(a[a.len() - c.len() - 1] == b[b.len() - c.len() - 1]);
                    assert(stopped_at(a, c, p));
                },
                DxfError::WrongValueType(code, offset) => {
                    let p = choose|p: CodePair| stopped_at(b, c, p) && p.code == code && p.offset == offset;
                    assert(a[a.len() - c.len() - 1] == b[b.len() - c.len() - 1]);
                    assert(stopped_at(a, c, p));
                },
                DxfError::MalformedHandle(offset) => {
                    let p = choose|p: CodePair| stopped_at(b, c, p) && p.offset == offset;
                    assert(a[a.len() - c.len() - 1] == b[b.len() - c.len() - 1]);
                    assert(stopped_at(a, c, p));
                },
                DxfError::MalformedHexData(offset) => {
                    let p = choose|p: CodePair| stopped_at(b, c, p) && p.offset == offset;
                    assert(a[a.len() - c.len() - 1] == b[b.len() - c.len() - 1]);
                    assert(stopped_at(a, c, p));
                },
                DxfError::UnexpectedEndOfInput => {},
            }
        },
    }
}

/// `b` is `a` with more pairs after it.
pub open spec fn extends(a: Seq<CodePair>, b: Seq<CodePair>) -> bool {
    b.len() >= a.len() && b.take(a.len() as int) == a
}

/// Appending twice is appending.
pub broadcast proof fn lemma_extends_trans(a: Seq<CodePair>, b: Seq<CodePair>, c: Seq<CodePair>)
    requires
        #[trigger] extends(a, b),
        #[trigger] extends(b, c),
    ensures
        extends(a, c),
{
    assert(c.take(a.len() as int) =~= b.take(a.len() as int));
}

/// Appending one pair extends.
pub broadcast proof fn lemma_extends_push(a: Seq<CodePair>, x: CodePair)
    ensures
        extends(a, #[trigger] a.push(x)),
{
    assert(a.push(x).take(a.len() as int) =~= a);
}

/// Appending pairs extends.
pub broadcast proof fn lemma_extends_concat(a: Seq<CodePair>, b: Seq<CodePair>)
    ensures
        extends(a, #[trigger] (a + b)),
{
    assert((a + b).take(a.len() as int) =~= a);
}

/// Appending nothing extends.
pub proof fn lemma_extends_refl(a: Seq<CodePair>)
    ensures
        extends(a, a),
{
    assert(a.take(a.len() as int) =~= a);
}

/// The error for a pair the grammar does not allow; its message is free.
pub open spec fn bad_pair(p: CodePair) -> DxfError {
    DxfError::UnexpectedCodePair(p, vstd::pervasive::arbitrary())
}

/// Two errors that agree but for the message of an unexpected pair.
pub open spec fn same_error(a: DxfError, b: DxfError) -> bool {
    match (a, b) {
        (DxfError::UnexpectedCodePair(p, _), DxfError::UnexpectedCodePair(q, _)) => p == q,
        _ => a == b,
    }
}

} // verus!
