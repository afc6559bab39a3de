//! Reading a comma-separated list of decimal integers.

use vstd::prelude::*;
use vstd::string::*;
use crate::bigint::{big_parse, decimal_value, BigInt};
use crate::crt::CrtError;

verus! {

/// The pieces of `text` between its commas, in order. A text without a comma
/// is one piece, the empty text included; a comma at either end borders on an
/// empty piece.
pub open spec fn split_commas(text: Seq<char>) -> Seq<Seq<char>>
    decreases text.len(),
{
    if text.len() == 0 {
        seq![Seq::<char>::empty()]
    } else {
        let before = split_commas(text.drop_last());
        if text.last() == ',' {
            before.push(Seq::<char>::empty())
        } else {
            before.update(before.len() - 1, before.last().push(text.last()))
        }
    }
}

/// Whether `piece` was read as what the decimal parser makes of `text`.
pub open spec fn read_as(piece: Option<BigInt>, text: Seq<char>) -> bool {
    match piece {
        Some(v) => decimal_value(text) == Some(v@),
        None => decimal_value(text) is None,
    }
}

/// Whether `piece` holds an integer of the value `v`.
pub open spec fn holds_value(piece: Option<BigInt>, v: int) -> bool {
    match piece {
        Some(p) => p@ == v,
        None => false,
    }
}

/// Cuts `s` at its commas.
pub fn split_list<'a>(s: &'a str) -> (r: Vec<&'a str>)
    ensures
        r@.len() == split_commas(s@).len(),
        forall|j: int| 0 <= j < r@.len() ==> r@[j]@ == #[trigger] split_commas(s@)[j],
{
    let n = s.unicode_len();
    let mut out: Vec<&'a str> = Vec::new();
    let mut start: usize = 0;
    let mut i: usize = 0;
    while i < n
        invariant
            n == s@.len(),
            start <= i <= n,
            split_commas(s@.take(i as int)).len() == out@.len() + 1,
            split_commas(s@.take(i as int)).last() == s@.subrange(start as int, i as int),
            forall|j: int|
                0 <= j < out@.len() ==> out@[j]@ == #[trigger] split_commas(
                    s@.take(i as int),
                )[j],
        decreases n - i,
    {
        let c = s.get_char(i);
        proof {
            assert(s@.take(i + 1).drop_last() =~= s@.take(i as int));
            assert(s@.take(i + 1).last() == c);
        }
        if c == ',' {
            out.push(s.substring_char(start, i));
            start = i + 1;
            proof {
                assert(s@.subrange(start as int, i + 1) =~= Seq::<char>::empty());
            }
        } else {
            proof {
                assert(s@.subrange(start as int, i + 1) =~= s@.subrange(
                    start as int,
                    i as int,
                ).push(c));
            }
        }
        i += 1;
    }
    proof {
        assert(s@.take(i as int) =~= s@);
    }
    out.push(s.substring_char(start, n));
    out
}

/// The integers that the pieces of a list were read as, where every piece
/// was read as one; else the place of the first piece that was not.
pub fn collect_parsed(pieces: &[Option<BigInt>]) -> (r: Result<Vec<BigInt>, CrtError>)
    ensures
        match r {
            Ok(v) => {
                &&& v@.len() == pieces@.len()
                &&& forall|j: int|
                    0 <= j < v@.len() ==> holds_value(#[trigger] pieces@[j], v@[j]@)
            },
            Err(CrtError::Parse { index }) => {
                &&& index < pieces@.len()
                &&& pieces@[index as int] is None
                &&& forall|j: int| 0 <= j < index ==> (#[trigger] pieces@[j]) is Some
            },
            Err(_) => false,
        },
{
    let mut out: Vec<BigInt> = Vec::new();
    let mut i: usize = 0;
    while i < pieces.len()
        invariant
            i <= pieces@.len(),
            out@.len() == i,
            forall|j: int|
                0 <= j < i ==> holds_value(#[trigger] pieces@[j], out@[j]@),
        decreases pieces@.len() - i,
    {
        match &pieces[i] {
            Some(v) => {
                out.push(v.copy());
            },
            None => {
                return Err(CrtError::Parse { index: i });
            },
        }
        i += 1;
    }
    Ok(out)
}

/// Reads `s` as a list of decimal integers separated by commas. The list
/// comes back where every piece is an integer; else the error names the
/// first piece that is none.
pub fn parse(s: &str) -> (r: Result<Vec<BigInt>, CrtError>)
    ensures
        match r {
            Ok(v) => {
                &&& v@.len() == split_commas(s@).len()
                &&& forall|j: int|
                    0 <= j < v@.len() ==> decimal_value(#[trigger] split_commas(s@)[j]) == Some(
                        v@[j]@,
                    )
            },
            Err(CrtError::Parse { index }) => {
                &&& index < split_commas(s@).len()
                &&& decimal_value(split_commas(s@)[index as int]) is None
                &&& forall|j: int|
                    0 <= j < index ==> decimal_value(#[trigger] split_commas(s@)[j]) is Some
            },
            Err(_) => false,
        },
{
    let texts = split_list(s);
    let mut pieces: Vec<Option<BigInt>> = Vec::new();
    let mut i: usize = 0;
    while i < texts.len()
        invariant
            i <= texts@.len(),
            pieces@.len() == i,
            texts@.len() == split_commas(s@).len(),
            forall|j: int| 0 <= j < texts@.len() ==> texts@[j]@ == #[trigger] split_commas(s@)[j],
            forall|j: int|
                0 <= j < i ==> read_as(#[trigger] pieces@[j], split_commas(s@)[j]),
        decreases texts@.len() - i,
    {
        pieces.push(big_parse(texts[i]));
        i += 1;
    }
    let r = collect_parsed(pieces.as_slice());
    proof {
        match &r {
            Ok(v) => {
                assert forall|j: int| 0 <= j < v@.len() implies decimal_value(
                    #[trigger] split_commas(s@)[j],
                ) == Some(v@[j]@) by {
                    assert(read_as(pieces@[j], split_commas(s@)[j]));
                }
            },
            Err(CrtError::Parse { index }) => {
                let index = *index;
                assert(read_as(pieces@[index as int], split_commas(s@)[index as int]));
                assert forall|j: int| 0 <= j < index implies decimal_value(
                    #[trigger] split_commas(s@)[j],
                ) is Some by {
                    assert(read_as(pieces@[j], split_commas(s@)[j]));
                }
            },
            Err(_) => {},
        }
    }
    r
}

} // verus!
