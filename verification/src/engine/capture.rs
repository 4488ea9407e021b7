//! How the content of a file is captured.

use vstd::prelude::*;
use vstd::utf8::valid_utf8;

use crate::bytes::text_of;

verus! {

/// Bytes without each carriage return that stands right before a line feed.
pub open spec fn without_returns(bytes: Seq<u8>) -> Seq<u8>
    decreases bytes.len(),
{
    if bytes.len() == 0 {
        bytes
    } else if bytes.len() >= 2 && bytes[0] == 13 && bytes[1] == 10 {
        without_returns(bytes.skip(1))
    } else {
        seq![bytes[0]] + without_returns(bytes.skip(1))
    }
}

/// What content becomes when it is captured: text has its line endings normalized, anything else
/// stays as it is.
pub open spec fn normalized(bytes: Seq<u8>) -> Seq<u8> {
    if valid_utf8(bytes) {
        without_returns(bytes)
    } else {
        bytes
    }
}

/// Normalize line endings in the content to LF. If the content is not valid UTF-8, it is returned
/// as-is.
pub fn normalize_line_endings(content: Vec<u8>) -> (r: Vec<u8>)
    ensures
        r@ == normalized(content@),
{
    if text_of(content.as_slice()).is_none() {
        return content;
    }
    let mut out: Vec<u8> = Vec::new();
    assert(content@.skip(0) =~= content@);
    assert(out@ + without_returns(content@.skip(0)) =~= without_returns(content@));
    for i in 0..content.len()
        invariant
            without_returns(content@) == out@ + without_returns(content@.skip(i as int)),
    {
        let ghost before = out@;
        let ghost rest = content@.skip(i as int);
        assert(rest.skip(1) =~= content@.skip(i + 1));
        let is_return = content[i] == 13 && i + 1 < content.len() && content[i + 1] == 10;
        if !is_return {
            out.push(content[i]);
            assert(before + (seq![rest[0]] + without_returns(rest.skip(1))) =~= out@
                + without_returns(rest.skip(1)));
        }
    }
    assert(content@.skip(content@.len() as int) =~= Seq::<u8>::empty());
    assert(out@ =~= without_returns(content@));
    out
}

// ----------------------------------------------------------------------------
// Laws
// ----------------------------------------------------------------------------

/// Whether bytes hold a carriage return right before a line feed.
pub open spec fn has_crlf(bytes: Seq<u8>) -> bool {
    exists|i: int| 0 <= i && i + 1 < bytes.len() && #[trigger] bytes[i] == 13 && bytes[i + 1] == 10
}

/// Whether bytes hold two carriage returns right before a line feed.
pub open spec fn has_double_return(bytes: Seq<u8>) -> bool {
    exists|i: int|
        0 <= i && i + 2 < bytes.len() && #[trigger] bytes[i] == 13 && bytes[i + 1] == 13 && bytes[i
            + 2] == 10
}

proof fn lemma_double_return_skip(bytes: Seq<u8>)
    requires
        bytes.len() > 0,
        !has_double_return(bytes),
    ensures
        !has_double_return(bytes.skip(1)),
{
    let rest = bytes.skip(1);
    if has_double_return(rest) {
        let i = choose|i: int|
            0 <= i && i + 2 < rest.len() && #[trigger] rest[i] == 13 && rest[i + 1] == 13 && rest[i
                + 2] == 10;
        assert(bytes[i + 1] == 13 && bytes[i + 2] == 13 && bytes[i + 3] == 10);
    }
}

proof fn lemma_first_byte(bytes: Seq<u8>)
    requires
        bytes.len() > 0,
    ensures
        without_returns(bytes).len() > 0,
        without_returns(bytes)[0] == if bytes.len() >= 2 && bytes[0] == 13 && bytes[1] == 10 {
            10u8
        } else {
            bytes[0]
        },
    decreases bytes.len(),
{
    if bytes.len() >= 2 && bytes[0] == 13 && bytes[1] == 10 {
        lemma_first_byte(bytes.skip(1));
    }
}

/// Captured text holds no carriage return before a line feed, unless the content held two of them
/// before one.
pub proof fn law_captured_text_has_plain_line_ends(bytes: Seq<u8>)
    requires
        !has_double_return(bytes),
    ensures
        !has_crlf(without_returns(bytes)),
    decreases bytes.len(),
{
    let out = without_returns(bytes);
    if bytes.len() > 0 {
        let rest = bytes.skip(1);
        lemma_double_return_skip(bytes);
        law_captured_text_has_plain_line_ends(rest);
        let after = without_returns(rest);
        if !(bytes.len() >= 2 && bytes[0] == 13 && bytes[1] == 10) && has_crlf(out) {
            let i = choose|i: int|
                0 <= i && i + 1 < out.len() && #[trigger] out[i] == 13 && out[i + 1] == 10;
            assert(out == seq![bytes[0]] + after);
            if i > 0 {
                assert(after[i - 1] == 13 && after[i] == 10);
                assert(has_crlf(after));
            } else {
                assert(rest.len() > 0);
                lemma_first_byte(rest);
                assert(bytes[0] == 13);
                assert(after[0] == 10);
                if rest.len() >= 2 && rest[0] == 13 && rest[1] == 10 {
                    assert(bytes[0] == 13 && bytes[1] == 13 && bytes[2] == 10);
                    assert(has_double_return(bytes));
                } else {
                    assert(bytes[1] == 10);
                }
            }
        }
    }
}

proof fn lemma_plain_stays(bytes: Seq<u8>)
    requires
        !has_crlf(bytes),
    ensures
        without_returns(bytes) == bytes,
    decreases bytes.len(),
{
    if bytes.len() > 0 {
        let rest = bytes.skip(1);
        assert(!has_crlf(rest)) by {
            if has_crlf(rest) {
                let i = choose|i: int|
                    0 <= i && i + 1 < rest.len() && #[trigger] rest[i] == 13 && rest[i + 1] == 10;
                assert(bytes[i + 1] == 13 && bytes[i + 2] == 10);
            }
        }
        lemma_plain_stays(rest);
        if bytes.len() >= 2 && bytes[0] == 13 && bytes[1] == 10 {
            assert(has_crlf(bytes));
        }
        assert(seq![bytes[0]] + rest =~= bytes);
    }
}

/// Content that has plain line ends is captured as it is.
pub proof fn law_plain_content_is_kept(bytes: Seq<u8>)
    requires
        !has_crlf(bytes),
    ensures
        normalized(bytes) == bytes,
{
    lemma_plain_stays(bytes);
}

/// To normalize twice is to normalize once, unless the content holds two carriage returns before
/// a line feed.
pub proof fn law_normalizing_twice_changes_nothing(bytes: Seq<u8>)
    requires
        !has_double_return(bytes),
    ensures
        normalized(normalized(bytes)) == normalized(bytes),
{
    if valid_utf8(bytes) {
        law_captured_text_has_plain_line_ends(bytes);
        law_plain_content_is_kept(without_returns(bytes));
    }
}

/// Whether the byte at `i` is a carriage return right before a line feed.
pub open spec fn is_crlf_at(bytes: Seq<u8>, i: int) -> bool {
    0 <= i && i + 1 < bytes.len() && bytes[i] == 13 && bytes[i + 1] == 10
}

/// How many carriage returns of the first `n` bytes stand right before a line feed.
pub open spec fn crlfs(bytes: Seq<u8>, n: int) -> nat
    decreases n,
{
    if n <= 0 {
        0
    } else if is_crlf_at(bytes, n - 1) {
        crlfs(bytes, n - 1) + 1
    } else {
        crlfs(bytes, n - 1)
    }
}

/// How often a byte occurs.
pub open spec fn occurrences(bytes: Seq<u8>, byte: u8) -> nat
    decreases bytes.len(),
{
    if bytes.len() == 0 {
        0
    } else if bytes.last() == byte {
        occurrences(bytes.drop_last(), byte) + 1
    } else {
        occurrences(bytes.drop_last(), byte)
    }
}

/// The bytes that are no carriage returns.
pub open spec fn other_bytes(bytes: Seq<u8>) -> Seq<u8> {
    bytes.filter(|b: u8| b != 13)
}

proof fn lemma_crlfs_front(bytes: Seq<u8>, n: int)
    requires
        bytes.len() > 0,
        0 <= n <= bytes.len() - 1,
    ensures
        crlfs(bytes, n + 1) == crlfs(bytes.skip(1), n) + if is_crlf_at(bytes, 0) {
            1nat
        } else {
            0nat
        },
    decreases n,
{
    if n > 0 {
        lemma_crlfs_front(bytes, n - 1);
        assert(is_crlf_at(bytes, n) == is_crlf_at(bytes.skip(1), n - 1));
    } else {
        assert(crlfs(bytes, 0) == 0);
    }
}

proof fn lemma_occurrences_front(bytes: Seq<u8>, byte: u8)
    requires
        bytes.len() > 0,
    ensures
        occurrences(bytes, byte) == occurrences(bytes.skip(1), byte) + if bytes[0] == byte {
            1nat
        } else {
            0nat
        },
    decreases bytes.len(),
{
    if bytes.len() > 1 {
        lemma_occurrences_front(bytes.drop_last(), byte);
        assert(bytes.drop_last().skip(1) =~= bytes.skip(1).drop_last());
        assert(bytes.skip(1).last() == bytes.last());
    } else {
        assert(bytes.drop_last() =~= Seq::empty());
        assert(bytes.skip(1) =~= Seq::empty());
    }
}

proof fn lemma_other_bytes_front(bytes: Seq<u8>)
    requires
        bytes.len() > 0,
    ensures
        other_bytes(bytes) == if bytes[0] == 13 {
            other_bytes(bytes.skip(1))
        } else {
            seq![bytes[0]] + other_bytes(bytes.skip(1))
        },
    decreases bytes.len(),
{
    reveal(Seq::filter);
    let keep = |b: u8| b != 13;
    if bytes.len() > 1 {
        lemma_other_bytes_front(bytes.drop_last());
        assert(bytes.drop_last().skip(1) =~= bytes.skip(1).drop_last());
        assert(bytes.skip(1).last() == bytes.last());
        assert(other_bytes(bytes) =~= if bytes[0] == 13 {
            other_bytes(bytes.skip(1))
        } else {
            seq![bytes[0]] + other_bytes(bytes.skip(1))
        });
    } else {
        assert(bytes.drop_last() =~= Seq::empty());
        assert(bytes.skip(1) =~= Seq::empty());
        assert(other_bytes(bytes) =~= if bytes[0] == 13 {
            other_bytes(bytes.skip(1))
        } else {
            seq![bytes[0]] + other_bytes(bytes.skip(1))
        });
    }
}

proof fn lemma_returns_only(bytes: Seq<u8>)
    ensures
        other_bytes(without_returns(bytes)) == other_bytes(bytes),
        without_returns(bytes).len() + crlfs(bytes, bytes.len() as int) == bytes.len(),
        occurrences(without_returns(bytes), 10) == occurrences(bytes, 10),
    decreases bytes.len(),
{
    if bytes.len() > 0 {
        let rest = bytes.skip(1);
        let out = without_returns(bytes);
        lemma_returns_only(rest);
        lemma_other_bytes_front(bytes);
        lemma_occurrences_front(bytes, 10);
        lemma_crlfs_front(bytes, bytes.len() - 1);
        if !is_crlf_at(bytes, 0) {
            assert(out.skip(1) =~= without_returns(rest));
            lemma_other_bytes_front(out);
            lemma_occurrences_front(out, 10);
        }
    }
}

/// Normalizing text loses nothing but carriage returns: the other bytes stay, in their order, each
/// line feed with them, and there is one byte less for each carriage return before a line feed.
/// What is no text stays as it is.
pub proof fn law_normalizing_loses_only_returns(bytes: Seq<u8>)
    ensures
        other_bytes(normalized(bytes)) == other_bytes(bytes),
        occurrences(normalized(bytes), 10) == occurrences(bytes, 10),
        valid_utf8(bytes) ==> normalized(bytes).len() + crlfs(bytes, bytes.len() as int)
            == bytes.len(),
        !valid_utf8(bytes) ==> normalized(bytes) == bytes,
{
    lemma_returns_only(bytes);
}

/// Each byte of text is kept when it is normalized, in its place among the others, unless it is a
/// carriage return right before a line feed: the result is made of the bytes at `kept`, which are
/// all positions but those.
pub proof fn law_normalizing_keeps_all_else(bytes: Seq<u8>) -> (kept: Seq<int>)
    requires
        valid_utf8(bytes),
    ensures
        kept.len() == normalized(bytes).len(),
        forall|k: int| 0 <= k < kept.len() ==> 0 <= #[trigger] kept[k] < bytes.len(),
        forall|k: int|
            0 <= k < kept.len() ==> normalized(bytes)[k] == bytes[#[trigger] kept[k]]
                && !is_crlf_at(bytes, kept[k]),
        forall|j: int, k: int|
            #![trigger kept[j], kept[k]]
            0 <= j < k < kept.len() ==> kept[j] < kept[k],
        forall|i: int|
            0 <= i < bytes.len() && !#[trigger] is_crlf_at(bytes, i) ==> kept.contains(i),
{
    lemma_kept(bytes)
}

proof fn lemma_kept(bytes: Seq<u8>) -> (kept: Seq<int>)
    ensures
        kept.len() == without_returns(bytes).len(),
        forall|k: int| 0 <= k < kept.len() ==> 0 <= #[trigger] kept[k] < bytes.len(),
        forall|k: int|
            0 <= k < kept.len() ==> without_returns(bytes)[k] == bytes[#[trigger] kept[k]]
                && !is_crlf_at(bytes, kept[k]),
        forall|j: int, k: int|
            #![trigger kept[j], kept[k]]
            0 <= j < k < kept.len() ==> kept[j] < kept[k],
        forall|i: int|
            0 <= i < bytes.len() && !#[trigger] is_crlf_at(bytes, i) ==> kept.contains(i),
    decreases bytes.len(),
{
    if bytes.len() == 0 {
        Seq::empty()
    } else {
        let rest = bytes.skip(1);
        let later = lemma_kept(rest);
        let moved = Seq::new(later.len(), |k: int| later[k] + 1);
        let first: Seq<int> = if is_crlf_at(bytes, 0) {
            Seq::empty()
        } else {
            seq![0int]
        };
        let kept = first + moved;
        let n = first.len() as int;
        assert forall|k: int| 0 <= k < kept.len() implies 0 <= #[trigger] kept[k] < bytes.len()
            && without_returns(bytes)[k] == bytes[kept[k]] && !is_crlf_at(bytes, kept[k]) by {
            if k >= n {
                assert(kept[k] == later[k - n] + 1);
                assert(is_crlf_at(bytes, kept[k]) == is_crlf_at(rest, later[k - n]));
            }
        }
        assert forall|j: int, k: int|
            #![trigger kept[j], kept[k]]
            0 <= j < k < kept.len() implies kept[j] < kept[k] by {
            assert(kept[k] == later[k - n] + 1);
            if j >= n {
                assert(kept[j] == later[j - n] + 1);
            }
        }
        assert forall|i: int|
            0 <= i < bytes.len() && !#[trigger] is_crlf_at(bytes, i) implies kept.contains(i) by {
            if i == 0 {
                assert(kept[0] == 0);
            } else {
                assert(!is_crlf_at(rest, i - 1));
                let k = choose|k: int| 0 <= k < later.len() && later[k] == i - 1;
                assert(kept[n + k] == i);
            }
        }
        kept
    }
}

/// Normalizing line ends takes the carriage returns right before line feeds out of text and leaves
/// all else as it is, line by line: no line feed is lost, so a file keeps its lines, blank ones
/// too. What is no text is not touched.
pub proof fn law_files_keep_their_lines(content: Vec<u8>, r: Vec<u8>)
    requires
        call_ensures(normalize_line_endings, (content,), r),
    ensures
        occurrences(r@, 10) == occurrences(content@, 10),
        other_bytes(r@) == other_bytes(content@),
        valid_utf8(content@) ==> r@.len() + crlfs(content@, content@.len() as int)
            == content@.len(),
        !valid_utf8(content@) ==> r@ == content@,
        !has_crlf(content@) ==> r@ == content@,
        valid_utf8(content@) && !has_double_return(content@) ==> !has_crlf(r@),
{
    law_normalizing_loses_only_returns(content@);
    if !has_crlf(content@) {
        law_plain_content_is_kept(content@);
    }
    if !has_double_return(content@) {
        law_captured_text_has_plain_line_ends(content@);
    }
}

} // verus!
