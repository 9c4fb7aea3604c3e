//! Byte-level primitive parsers.
//!
//! Every primitive reads its input slice from the start and returns an
//! [`IResult`] whose `Done` remainder is a suffix view of that same slice:
//! nothing is copied and nothing is scanned twice.

use crate::internal::{IResult, Needed, ParseError};
use crate::util::ErrorKind;
use vstd::prelude::*;
use vstd::slice::slice_subrange;

verus! {

/// True when byte `b` occurs anywhere in `set`; membership is
/// order-independent.
pub open spec fn in_set(set: Seq<u8>, b: u8) -> bool {
    exists|i: int| 0 <= i < set.len() && set[i] == b
}

/// Length of the longest prefix of `input` whose bytes all have membership
/// in `set` equal to `inside`: the index of the first byte that stops a
/// class scan, or the input's length when no byte stops it.
pub open spec fn class_split(set: Seq<u8>, input: Seq<u8>, inside: bool) -> int
    decreases input.len(),
{
    if input.len() == 0 {
        0
    } else if in_set(set, input[0]) == inside {
        1 + class_split(set, input.drop_first(), inside)
    } else {
        0
    }
}

/// The split index of a class scan is the least index whose byte leaves the
/// class, and lies within the input.
pub proof fn lemma_class_split(set: Seq<u8>, input: Seq<u8>, inside: bool)
    ensures
        0 <= class_split(set, input, inside) <= input.len(),
        forall|j: int|
            0 <= j < class_split(set, input, inside) ==> in_set(set, input[j]) == inside,
        class_split(set, input, inside) < input.len() ==> in_set(
            set,
            input[class_split(set, input, inside)],
        ) != inside,
    decreases input.len(),
{
    if input.len() > 0 && in_set(set, input[0]) == inside {
        lemma_class_split(set, input.drop_first(), inside);
        assert forall|j: int| 0 <= j < class_split(set, input, inside) implies in_set(
            set,
            input[j],
        ) == inside by {
            if j > 0 {
                assert(input[j] == input.drop_first()[j - 1]);
            }
        }
        let k = class_split(set, input, inside);
        if k < input.len() {
            assert(input[k] == input.drop_first()[k - 1]);
        }
    }
}

/// True when `b` occurs in `set`.
fn mem(set: &[u8], b: u8) -> (r: bool)
    ensures
        r == in_set(set@, b),
{
    let mut i: usize = 0;
    while i < set.len()
        invariant
            0 <= i <= set@.len(),
            forall|j: int| 0 <= j < i ==> set@[j] != b,
        decreases set@.len() - i,
    {
        if set[i] == b {
            return true;
        }
        i += 1;
    }
    false
}

/// The split index of a class scan of `input` against `set`.
fn class_prefix_len(set: &[u8], input: &[u8], inside: bool) -> (k: usize)
    ensures
        k == class_split(set@, input@, inside),
{
    let mut i: usize = 0;
    while i < input.len()
        invariant
            0 <= i <= input@.len(),
            forall|j: int| 0 <= j < i ==> in_set(set@, input@[j]) == inside,
        decreases input@.len() - i,
    {
        if mem(set, input[i]) != inside {
            proof {
                lemma_class_split(set@, input@, inside);
                let c = class_split(set@, input@, inside);
                if c < i {
                    assert(in_set(set@, input@[c]) == inside);
                }
                if c > i {
                    assert(in_set(set@, input@[i as int]) == inside);
                }
            }
            return i;
        }
        i += 1;
    }
    proof {
        lemma_class_split(set@, input@, inside);
        let c = class_split(set@, input@, inside);
        if c < input@.len() {
            assert(in_set(set@, input@[c]) == inside);
        }
    }
    i
}

/// An exclusion scan: consume the longest prefix free of the bytes of `set`.
///
/// The scan stops at the first byte that belongs to `set`, or at the end of
/// the buffer; reaching the end without meeting an excluded byte is a match
/// of the whole buffer, never a request for more input. A stop at the very
/// first byte is a positioned failure.
pub fn is_not<'a>(set: &[u8], input: &'a [u8]) -> (r: IResult<'a, &'a [u8], &'a [u8]>)
    ensures
        !(r is Incomplete),
        ({
            let k = class_split(set@, input@, false);
            &&& k == 0 ==> (r matches IResult::Error(ParseError::Position(kind, pos)) && kind
                == ErrorKind::<u32>::IsNot && pos@ == input@)
            &&& k > 0 ==> (r matches IResult::Done(rest, out) && rest@ == input@.skip(k) && out@
                == input@.take(k))
        }),
        input@.len() > 0 && in_set(set@, input@[0]) ==> r is Error,
        input@.len() > 0 && (forall|j: int| 0 <= j < input@.len() ==> !in_set(set@, input@[j]))
            ==> (r matches IResult::Done(rest, out) && rest@ == Seq::<u8>::empty() && out@
            == input@),
{
    let k = class_prefix_len(set, input, false);
    proof {
        lemma_class_split(set@, input@, false);
        if input@.len() > 0 && (forall|j: int| 0 <= j < input@.len() ==> !in_set(
            set@,
            input@[j],
        )) {
            assert(k == input@.len());
            assert(input@.skip(k as int) =~= Seq::<u8>::empty());
            assert(input@.take(k as int) =~= input@);
        }
    }
    if k == 0 {
        IResult::Error(ParseError::Position(ErrorKind::IsNot, input))
    } else {
        IResult::Done(slice_subrange(input, k, input.len()), slice_subrange(input, 0, k))
    }
}

/// An inclusion scan: consume the longest prefix made of the bytes of `set`.
///
/// The mirror of [`is_not`]: the scan stops at the first byte that does not
/// belong to `set`, with the same zero-length-match failure and the same
/// whole-buffer success at end of input.
pub fn is_a<'a>(set: &[u8], input: &'a [u8]) -> (r: IResult<'a, &'a [u8], &'a [u8]>)
    ensures
        !(r is Incomplete),
        ({
            let k = class_split(set@, input@, true);
            &&& k == 0 ==> (r matches IResult::Error(ParseError::Position(kind, pos)) && kind
                == ErrorKind::<u32>::IsA && pos@ == input@)
            &&& k > 0 ==> (r matches IResult::Done(rest, out) && rest@ == input@.skip(k) && out@
                == input@.take(k))
        }),
        input@.len() > 0 && !in_set(set@, input@[0]) ==> r is Error,
        input@.len() > 0 && (forall|j: int| 0 <= j < input@.len() ==> in_set(set@, input@[j]))
            ==> (r matches IResult::Done(rest, out) && rest@ == Seq::<u8>::empty() && out@
            == input@),
{
    let k = class_prefix_len(set, input, true);
    proof {
        lemma_class_split(set@, input@, true);
        if input@.len() > 0 && (forall|j: int| 0 <= j < input@.len() ==> in_set(set@, input@[j])) {
            assert(k == input@.len());
            assert(input@.skip(k as int) =~= Seq::<u8>::empty());
            assert(input@.take(k as int) =~= input@);
        }
    }
    if k == 0 {
        IResult::Error(ParseError::Position(ErrorKind::IsA, input))
    } else {
        IResult::Done(slice_subrange(input, k, input.len()), slice_subrange(input, 0, k))
    }
}

/// A predicate scan: consume the longest prefix on which `pred` holds.
///
/// The scan stops at the first byte failing the predicate or at the end of
/// the buffer. A stop at the very first byte (including an empty buffer) is
/// a positioned failure; a predicate that never fails matches the whole
/// buffer with an empty remainder — exhaustion of input is a legitimate
/// match, never a request for more data.
pub fn filter<'a, F: Fn(u8) -> bool>(pred: F, input: &'a [u8]) -> (r: IResult<
    'a,
    &'a [u8],
    &'a [u8],
>)
    requires
        forall|b: u8| call_requires(pred, (b,)),
    ensures
        !(r is Incomplete),
        r matches IResult::Done(rest, out) ==> {
            &&& 0 < out@.len() <= input@.len()
            &&& out@ == input@.take(out@.len() as int)
            &&& rest@ == input@.skip(out@.len() as int)
            &&& forall|j: int| 0 <= j < out@.len() ==> call_ensures(pred, (input@[j],), true)
            &&& out@.len() < input@.len() ==> call_ensures(
                pred,
                (input@[out@.len() as int],),
                false,
            )
        },
        r matches IResult::Error(e) ==> (e matches ParseError::Position(kind, pos) && kind
            == ErrorKind::<u32>::Filter && pos@ == input@ && (input@.len() == 0 || call_ensures(
            pred,
            (input@[0],),
            false,
        ))),
        (input@.len() > 0 && (forall|b: u8, res: bool| call_ensures(pred, (b,), res) ==> res)) ==> (
        r matches IResult::Done(rest, out) && rest@ == Seq::<u8>::empty() && out@ == input@),
{
    let mut i: usize = 0;
    while i < input.len()
        invariant
            0 <= i <= input@.len(),
            forall|b: u8| call_requires(pred, (b,)),
            forall|j: int| 0 <= j < i ==> call_ensures(pred, (input@[j],), true),
        decreases input@.len() - i,
    {
        if !pred(input[i]) {
            if i == 0 {
                return IResult::Error(ParseError::Position(ErrorKind::Filter, input));
            }
            let rest = slice_subrange(input, i, input.len());
            let out = slice_subrange(input, 0, i);
            return IResult::Done(rest, out);
        }
        i += 1;
    }
    if i == 0 {
        return IResult::Error(ParseError::Position(ErrorKind::Filter, input));
    }
    let rest = slice_subrange(input, i, input.len());
    let out = slice_subrange(input, 0, i);
    proof {
        assert(rest@ =~= Seq::<u8>::empty());
        assert(out@ =~= input@);
    }
    IResult::Done(rest, out)
}

/// A fixed-length take: consume exactly `cnt` bytes.
///
/// Asks for more input when the buffer holds fewer than `cnt` bytes;
/// otherwise splits the buffer after the first `cnt` bytes. In particular a
/// buffer of exactly `cnt` bytes yields an empty remainder and the whole
/// buffer as output.
pub fn take<'a>(cnt: usize, input: &'a [u8]) -> (r: IResult<'a, &'a [u8], &'a [u8]>)
    ensures
        input@.len() < cnt ==> (r matches IResult::Incomplete(n) && n == Needed::Size(cnt)),
        input@.len() >= cnt ==> (r matches IResult::Done(rest, out) && rest@ == input@.skip(
            cnt as int,
        ) && out@ == input@.take(cnt as int)),
        input@.len() == cnt ==> (r matches IResult::Done(rest, out) && rest@ == Seq::<
            u8,
        >::empty() && out@ == input@),
{
    if input.len() < cnt {
        IResult::Incomplete(Needed::Size(cnt))
    } else {
        let rest = slice_subrange(input, cnt, input.len());
        let out = slice_subrange(input, 0, cnt);
        proof {
            if input@.len() == cnt {
                assert(rest@ =~= Seq::<u8>::empty());
                assert(out@ =~= input@);
            }
        }
        IResult::Done(rest, out)
    }
}

/// Law: a fixed-length take that succeeded can only succeed again on its own
/// remainder when that remainder again holds `cnt` bytes — that is, when the
/// original buffer held at least twice `cnt` — and then yields the next
/// `cnt` bytes, never the first output again unless the bytes repeat.
pub proof fn lemma_take_rerun(cnt: usize, input: Seq<u8>)
    requires
        cnt <= input.len(),
    ensures
        input.skip(cnt as int).len() == input.len() - cnt,
        input.skip(cnt as int).len() >= cnt <==> input.len() >= 2 * cnt,
        input.len() >= 2 * cnt ==> input.skip(cnt as int).take(cnt as int) == input.subrange(
            cnt as int,
            2 * (cnt as int),
        ),
{
    if input.len() >= 2 * cnt {
        assert(input.skip(cnt as int).take(cnt as int) =~= input.subrange(
            cnt as int,
            2 * (cnt as int),
        ));
    }
}

/// Relies on `core::str::from_utf8`: it returns `Ok` exactly when the bytes
/// are valid UTF-8, and the returned text is backed by those very bytes, so
/// its characters are their decoding.
#[verifier::external_body]
fn utf8_decode_bytes<'a>(bytes: &'a [u8]) -> (r: Option<&'a str>)
    ensures
        r is Some <==> vstd::utf8::valid_utf8(bytes@),
        r matches Some(s) ==> s@ == vstd::utf8::decode_utf8(bytes@),
{
    core::str::from_utf8(bytes).ok()
}

/// A text take: a fixed-length take whose consumed bytes are decoded as
/// UTF-8.
///
/// The `Incomplete`/`Done` split is exactly that of [`take`] with the same
/// `cnt`; when the consumed bytes are valid UTF-8, the output is their
/// decoding and the remainder is the one [`take`] leaves. When decoding
/// fails, the byte-level take still stood, but the result is a positioned
/// decode failure — never a request for more input.
pub fn take_str<'a>(cnt: usize, input: &'a [u8]) -> (r: IResult<'a, &'a [u8], &'a str>)
    ensures
        input@.len() < cnt ==> (r matches IResult::Incomplete(n) && n == Needed::Size(cnt)),
        input@.len() >= cnt && vstd::utf8::valid_utf8(input@.take(cnt as int)) ==> (
        r matches IResult::Done(rest, out) && rest@ == input@.skip(cnt as int) && out@
            == vstd::utf8::decode_utf8(input@.take(cnt as int))),
        input@.len() >= cnt && !vstd::utf8::valid_utf8(input@.take(cnt as int)) ==> (
        r matches IResult::Error(ParseError::Position(kind, pos)) && kind
            == ErrorKind::<u32>::MapRes && pos@ == input@),
{
    match take(cnt, input) {
        IResult::Done(rest, out) => match utf8_decode_bytes(out) {
            Some(s) => IResult::Done(rest, s),
            None => IResult::Error(ParseError::Position(ErrorKind::MapRes, input)),
        },
        IResult::Incomplete(n) => IResult::Incomplete(n),
        IResult::Error(_) => IResult::Error(ParseError::Position(ErrorKind::MapRes, input)),
    }
}

/// A literal match: recognize the bytes of `literal` at the head of `input`.
///
/// A buffer shorter than the literal cannot be decided and asks for the
/// literal's full length. Otherwise the leading bytes are compared
/// byte-for-byte: full equality consumes them, and any mismatch is a failure
/// positioned at the original input. No partial-length match is ever
/// returned.
pub fn tag<'a>(literal: &[u8], input: &'a [u8]) -> (r: IResult<'a, &'a [u8], &'a [u8]>)
    ensures
        input@.len() < literal@.len() ==> (r matches IResult::Incomplete(n) && n == Needed::Size(
            literal.len(),
        )),
        input@.len() >= literal@.len() && input@.take(literal@.len() as int) == literal@ ==> (
        r matches IResult::Done(rest, out) && rest@ == input@.skip(literal@.len() as int) && out@
            == literal@),
        input@.len() >= literal@.len() && input@.take(literal@.len() as int) != literal@ ==> (
        r matches IResult::Error(ParseError::Position(kind, pos)) && kind == ErrorKind::<u32>::Tag && pos@
            == input@),
{
    let llen = literal.len();
    if input.len() < llen {
        return IResult::Incomplete(Needed::Size(llen));
    }
    let mut i: usize = 0;
    while i < llen
        invariant
            0 <= i <= llen,
            llen == literal@.len(),
            llen <= input@.len(),
            forall|j: int| 0 <= j < i ==> input@[j] == literal@[j],
        decreases llen - i,
    {
        if input[i] != literal[i] {
            proof {
                assert(input@.take(llen as int)[i as int] != literal@[i as int]);
            }
            return IResult::Error(ParseError::Position(ErrorKind::Tag, input));
        }
        i += 1;
    }
    proof {
        assert(input@.take(llen as int) =~= literal@);
    }
    let rest = slice_subrange(input, llen, input.len());
    let out = slice_subrange(input, 0, llen);
    proof {
        assert(out@ =~= literal@);
    }
    IResult::Done(rest, out)
}

/// True when `delim` occurs in `input` starting at offset `k`.
pub open spec fn delim_at(input: Seq<u8>, delim: Seq<u8>, k: int) -> bool {
    0 <= k && k + delim.len() <= input.len() && input.subrange(k, k + delim.len()) == delim
}

/// The least offset at which `delim` occurs in `input`, or `-1` when it
/// occurs nowhere.
pub open spec fn delim_find(input: Seq<u8>, delim: Seq<u8>) -> int
    decreases input.len(),
{
    if delim_at(input, delim, 0) {
        0
    } else if input.len() == 0 {
        -1
    } else {
        let rec = delim_find(input.drop_first(), delim);
        if rec < 0 {
            -1
        } else {
            1 + rec
        }
    }
}

/// An occurrence of `delim` one step into `input` is an occurrence at the
/// corresponding offset of the input without its first byte.
proof fn lemma_delim_at_shift(input: Seq<u8>, delim: Seq<u8>, k: int)
    requires
        input.len() > 0,
        k >= 0,
    ensures
        delim_at(input, delim, k + 1) <==> delim_at(input.drop_first(), delim, k),
{
    if k + 1 + delim.len() <= input.len() {
        assert(input.subrange(k + 1, k + 1 + delim.len() as int) =~= input.drop_first().subrange(
            k,
            k + delim.len() as int,
        ));
    }
}

/// The found offset of a delimiter search is its least occurrence, and a
/// negative result means the delimiter occurs nowhere.
pub proof fn lemma_delim_find(input: Seq<u8>, delim: Seq<u8>)
    ensures
        delim_find(input, delim) >= 0 ==> delim_at(input, delim, delim_find(input, delim)),
        forall|j: int|
            0 <= j < delim_find(input, delim) ==> !delim_at(input, delim, j),
        delim_find(input, delim) < 0 ==> forall|k: int| !delim_at(input, delim, k),
    decreases input.len(),
{
    if delim_at(input, delim, 0) {
    } else if input.len() == 0 {
        assert forall|k: int| !delim_at(input, delim, k) by {
            if k != 0 && delim_at(input, delim, k) {
                assert(k > 0 && k + delim.len() <= 0);
            }
        }
    } else {
        lemma_delim_find(input.drop_first(), delim);
        let rec = delim_find(input.drop_first(), delim);
        if rec < 0 {
            assert forall|k: int| !delim_at(input, delim, k) by {
                if delim_at(input, delim, k) {
                    if k >= 1 {
                        lemma_delim_at_shift(input, delim, k - 1);
                    }
                }
            }
        } else {
            lemma_delim_at_shift(input, delim, rec);
            assert forall|j: int| 0 <= j < delim_find(input, delim) implies !delim_at(
                input,
                delim,
                j,
            ) by {
                if j >= 1 && delim_at(input, delim, j) {
                    lemma_delim_at_shift(input, delim, j - 1);
                }
            }
        }
    }
}

/// True when the bytes of `delim` stand in `input` at offset `at`.
fn delim_matches_at(delim: &[u8], input: &[u8], at: usize) -> (r: bool)
    requires
        at + delim@.len() <= input@.len(),
    ensures
        r == delim_at(input@, delim@, at as int),
{
    let n = input.len();
    let mut i: usize = 0;
    while i < delim.len()
        invariant
            0 <= i <= delim@.len(),
            at + delim@.len() <= n,
            n == input@.len(),
            forall|j: int| 0 <= j < i ==> input@[at + j] == delim@[j],
        decreases delim@.len() - i,
    {
        if input[at + i] != delim[i] {
            proof {
                assert(input@.subrange(at as int, at + delim@.len())[i as int] != delim@[i as int]);
            }
            return false;
        }
        i += 1;
    }
    proof {
        assert(input@.subrange(at as int, at + delim@.len()) =~= delim@);
    }
    true
}

/// The least offset at which `delim` occurs in `input`, if any.
fn delim_search(delim: &[u8], input: &[u8]) -> (pos: Option<usize>)
    requires
        delim@.len() <= input@.len(),
    ensures
        pos matches Some(k) ==> k == delim_find(input@, delim@),
        pos is None ==> delim_find(input@, delim@) < 0,
{
    let last = input.len() - delim.len();
    let mut k: usize = 0;
    while k < last
        invariant
            0 <= k <= last,
            last == input@.len() - delim@.len(),
            forall|j: int| 0 <= j < k ==> !delim_at(input@, delim@, j),
        decreases last - k,
    {
        if delim_matches_at(delim, input, k) {
            proof {
                lemma_delim_find(input@, delim@);
                let c = delim_find(input@, delim@);
                if c >= 0 && c < k {
                    assert(!delim_at(input@, delim@, c));
                }
            }
            return Some(k);
        }
        k += 1;
    }
    if delim_matches_at(delim, input, last) {
        proof {
            lemma_delim_find(input@, delim@);
            let c = delim_find(input@, delim@);
            if c >= 0 && c < last {
                assert(!delim_at(input@, delim@, c));
            }
        }
        return Some(last);
    }
    proof {
        lemma_delim_find(input@, delim@);
        let c = delim_find(input@, delim@);
        if c >= 0 {
            assert(delim_at(input@, delim@, c));
            assert(c + delim@.len() <= input@.len());
        }
    }
    None
}

/// A consuming delimiter search: consume everything up to and including the
/// first occurrence of `delim`.
///
/// A buffer shorter than the delimiter asks unconditionally for the
/// delimiter's full length. Otherwise the first occurrence splits the
/// buffer: the bytes before it are the output and the bytes after it the
/// remainder. A buffer holding no occurrence is a definite, positioned
/// failure, even though longer input might still contain the delimiter: the
/// search does not stream past the delimiter's own length.
pub fn take_until_and_consume<'a>(delim: &[u8], input: &'a [u8]) -> (r: IResult<
    'a,
    &'a [u8],
    &'a [u8],
>)
    ensures
        input@.len() < delim@.len() ==> (r matches IResult::Incomplete(n) && n == Needed::Size(
            delim.len(),
        )),
        ({
            let k = delim_find(input@, delim@);
            &&& input@.len() >= delim@.len() && k >= 0 ==> (r matches IResult::Done(rest, out)
                && rest@ == input@.skip(k + delim@.len()) && out@ == input@.take(k))
            &&& input@.len() >= delim@.len() && k < 0 ==> (r matches IResult::Error(
                ParseError::Position(kind, pos),
            ) && kind == ErrorKind::<u32>::TakeUntilAndConsume && pos@ == input@)
        }),
{
    if input.len() < delim.len() {
        return IResult::Incomplete(Needed::Size(delim.len()));
    }
    match delim_search(delim, input) {
        Some(k) => {
            proof {
                lemma_delim_find(input@, delim@);
            }
            let rest = slice_subrange(input, k + delim.len(), input.len());
            let out = slice_subrange(input, 0, k);
            IResult::Done(rest, out)
        },
        None => IResult::Error(ParseError::Position(ErrorKind::TakeUntilAndConsume, input)),
    }
}

/// A non-consuming delimiter search: like [`take_until_and_consume`], but
/// the remainder starts at the delimiter itself, leaving it for a
/// subsequent parser to consume explicitly.
pub fn take_until<'a>(delim: &[u8], input: &'a [u8]) -> (r: IResult<'a, &'a [u8], &'a [u8]>)
    ensures
        input@.len() < delim@.len() ==> (r matches IResult::Incomplete(n) && n == Needed::Size(
            delim.len(),
        )),
        ({
            let k = delim_find(input@, delim@);
            &&& input@.len() >= delim@.len() && k >= 0 ==> (r matches IResult::Done(rest, out)
                && rest@ == input@.skip(k) && out@ == input@.take(k))
            &&& input@.len() >= delim@.len() && k < 0 ==> (r matches IResult::Error(
                ParseError::Position(kind, pos),
            ) && kind == ErrorKind::<u32>::TakeUntil && pos@ == input@)
        }),
{
    if input.len() < delim.len() {
        return IResult::Incomplete(Needed::Size(delim.len()));
    }
    match delim_search(delim, input) {
        Some(k) => {
            proof {
                lemma_delim_find(input@, delim@);
            }
            let rest = slice_subrange(input, k, input.len());
            let out = slice_subrange(input, 0, k);
            IResult::Done(rest, out)
        },
        None => IResult::Error(ParseError::Position(ErrorKind::TakeUntil, input)),
    }
}

/// A consuming delimiter-set search: consume everything up to the first
/// byte that is a member of `set`, and that byte with it.
///
/// The delimiter here is any single byte of `set`. An empty buffer asks for
/// one byte; a buffer holding no member of `set` is a definite, positioned
/// failure. An occurrence at the very first byte is a success with an empty
/// output.
pub fn take_until_either_and_consume<'a>(set: &[u8], input: &'a [u8]) -> (r: IResult<
    'a,
    &'a [u8],
    &'a [u8],
>)
    ensures
        input@.len() == 0 ==> (r matches IResult::Incomplete(n) && n == Needed::Size(1)),
        ({
            let k = class_split(set@, input@, false);
            &&& input@.len() > 0 && k < input@.len() ==> (r matches IResult::Done(rest, out)
                && rest@ == input@.skip(k + 1) && out@ == input@.take(k))
            &&& input@.len() > 0 && k == input@.len() ==> (r matches IResult::Error(
                ParseError::Position(kind, pos),
            ) && kind == ErrorKind::<u32>::TakeUntilEitherAndConsume && pos@ == input@)
        }),
{
    if input.len() == 0 {
        return IResult::Incomplete(Needed::Size(1));
    }
    let k = class_prefix_len(set, input, false);
    proof {
        lemma_class_split(set@, input@, false);
    }
    if k == input.len() {
        IResult::Error(ParseError::Position(ErrorKind::TakeUntilEitherAndConsume, input))
    } else {
        IResult::Done(slice_subrange(input, k + 1, input.len()), slice_subrange(input, 0, k))
    }
}

/// A non-consuming delimiter-set search: like
/// [`take_until_either_and_consume`], but the matched byte stays at the head
/// of the remainder.
pub fn take_until_either<'a>(set: &[u8], input: &'a [u8]) -> (r: IResult<'a, &'a [u8], &'a [u8]>)
    ensures
        input@.len() == 0 ==> (r matches IResult::Incomplete(n) && n == Needed::Size(1)),
        ({
            let k = class_split(set@, input@, false);
            &&& input@.len() > 0 && k < input@.len() ==> (r matches IResult::Done(rest, out)
                && rest@ == input@.skip(k) && out@ == input@.take(k))
            &&& input@.len() > 0 && k == input@.len() ==> (r matches IResult::Error(
                ParseError::Position(kind, pos),
            ) && kind == ErrorKind::<u32>::TakeUntilEither && pos@ == input@)
        }),
{
    if input.len() == 0 {
        return IResult::Incomplete(Needed::Size(1));
    }
    let k = class_prefix_len(set, input, false);
    proof {
        lemma_class_split(set@, input@, false);
    }
    if k == input.len() {
        IResult::Error(ParseError::Position(ErrorKind::TakeUntilEither, input))
    } else {
        IResult::Done(slice_subrange(input, k, input.len()), slice_subrange(input, 0, k))
    }
}

} // verus!
