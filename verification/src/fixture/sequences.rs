//! Reading a stream of bytes in pieces.
//!
//! The terminal model reads its bytes from left to right, and what it makes
//! of a byte depends on the screen alone, not on what was read before. So a
//! stream may be cut wherever no escape sequence is cut in two, and the
//! pieces read one after the other.

use vstd::prelude::*;

use crate::fixture::raw_tty_emulator::{
    apply, is_param, params_len, read_escape, Screen, BRACKET, CARRIAGE_RETURN, ESCAPE, LINE_FEED,
    QUESTION_MARK,
};

verus! {

/// The digits and semicolons counted from `from` on all lie in `bytes`, and
/// the byte behind them, if there is one, is neither.
pub proof fn lemma_params_len(bytes: Seq<u8>, from: int)
    requires
        0 <= from <= bytes.len(),
    ensures
        from + params_len(bytes, from) <= bytes.len(),
        forall|i: int| from <= i < from + params_len(bytes, from) ==> is_param(#[trigger] bytes[i]),
        from + params_len(bytes, from) < bytes.len() ==> !is_param(
            bytes[from + params_len(bytes, from)],
        ),
    decreases bytes.len() - from,
{
    if from < bytes.len() && is_param(bytes[from]) {
        lemma_params_len(bytes, from + 1);
    }
}

/// A stretch of `count` digits and semicolons with another byte behind it is
/// counted as `count`.
pub proof fn lemma_params_counted(bytes: Seq<u8>, from: int, count: nat)
    requires
        0 <= from,
        from + count < bytes.len(),
        forall|i: int| from <= i < from + count ==> is_param(#[trigger] bytes[i]),
        !is_param(bytes[from + count]),
    ensures
        params_len(bytes, from) == count,
    decreases count,
{
    if count > 0 {
        lemma_params_counted(bytes, from + 1, (count - 1) as nat);
    }
}

/// Two streams that hold the same bytes from two places on hold as many
/// digits and semicolons there.
proof fn lemma_params_len_shift(a: Seq<u8>, from_a: int, b: Seq<u8>, from_b: int)
    requires
        0 <= from_a <= a.len(),
        0 <= from_b <= b.len(),
        a.skip(from_a) == b.skip(from_b),
    ensures
        params_len(a, from_a) == params_len(b, from_b),
    decreases a.len() - from_a,
{
    let rest = a.skip(from_a);
    assert(rest.len() == a.len() - from_a);
    assert(b.skip(from_b).len() == b.len() - from_b);
    if from_a < a.len() {
        assert(a[from_a] == rest[0]);
        assert(b[from_b] == b.skip(from_b)[0]);
        if is_param(a[from_a]) {
            assert(a.skip(from_a + 1) =~= rest.skip(1));
            assert(b.skip(from_b + 1) =~= b.skip(from_b).skip(1));
            lemma_params_len_shift(a, from_a + 1, b, from_b + 1);
        }
    }
}

/// An escape sequence that stands in a stream stands in every stream that
/// holds the same bytes where the sequence stands.
proof fn lemma_read_escape_agrees(a: Seq<u8>, b: Seq<u8>, from: int)
    requires
        read_escape(a, from) is Some,
        from + read_escape(a, from).unwrap().len <= b.len(),
        forall|i: int|
            from <= i < from + read_escape(a, from).unwrap().len ==> #[trigger] a[i] == b[i],
    ensures
        read_escape(b, from) == read_escape(a, from),
{
    let escape = read_escape(a, from).unwrap();
    let private = from + 1 < a.len() && a[from + 1] == QUESTION_MARK;
    let start = if private {
        from + 2
    } else {
        from + 1
    };
    let count = params_len(a, start);
    lemma_params_len(a, start);
    assert(a[from] == b[from]);
    assert(a[from + 1] == b[from + 1]);
    assert(forall|i: int| start <= i < start + count ==> is_param(#[trigger] a[i]));
    assert forall|i: int| start <= i < start + count implies is_param(#[trigger] b[i]) by {
        assert(a[i] == b[i]);
    }
    assert(a[start + count] == b[start + count]);
    lemma_params_counted(b, start, count);
    assert(a.subrange(start, start + count) =~= b.subrange(start, start + count));
}

/// What stands in a stream behind some bytes is read as it is read without
/// them.
proof fn lemma_read_escape_shift(a: Seq<u8>, b: Seq<u8>, from: int)
    requires
        0 <= from,
    ensures
        read_escape(a + b, a.len() + from) == read_escape(b, from),
{
    let whole = a + b;
    let offset = a.len() as int;
    if from < b.len() && b[from] == BRACKET {
        let private = from + 1 < b.len() && b[from + 1] == QUESTION_MARK;
        let start = if private {
            from + 2
        } else {
            from + 1
        };
        assert(whole[offset + from] == b[from]);
        if from + 1 < b.len() {
            assert(whole[offset + from + 1] == b[from + 1]);
        }
        if start <= b.len() {
            assert(whole.skip(offset + start) =~= b.skip(start));
            lemma_params_len_shift(whole, offset + start, b, start);
            let count = params_len(b, start);
            lemma_params_len(b, start);
            if start + count < b.len() {
                assert(whole.subrange(offset + start, offset + start + count) =~= b.subrange(
                    start,
                    start + count,
                ));
                assert(whole[offset + start + count] == b[start + count]);
            }
        } else {
            assert(params_len(whole, offset + start) == 0);
            assert(params_len(b, start) == 0);
        }
    } else if from < b.len() {
        assert(whole[offset + from] == b[from]);
    }
}

/// Reading a stream from a place behind its first bytes is reading the rest
/// of the stream.
pub proof fn lemma_apply_shift(screen: Screen, a: Seq<u8>, b: Seq<u8>, from: int)
    requires
        0 <= from,
    ensures
        apply(screen, a + b, a.len() + from) == apply(screen, b, from),
    decreases b.len() - from,
{
    let whole = a + b;
    let offset = a.len() as int;
    if from < b.len() {
        assert(whole[offset + from] == b[from]);
        let byte = b[from];
        if byte == LINE_FEED {
            lemma_apply_shift(screen.line_feed(), a, b, from + 1);
        } else if byte == CARRIAGE_RETURN {
            lemma_apply_shift(screen.carriage_return(), a, b, from + 1);
        } else if byte == ESCAPE {
            lemma_read_escape_shift(a, b, from + 1);
            match read_escape(b, from + 1) {
                Some(escape) => match screen.escape_effect(escape) {
                    Some(next) => {
                        lemma_apply_shift(next, a, b, from + 1 + escape.len);
                    },
                    None => {},
                },
                None => {},
            }
        } else if screen.column + 1 < usize::MAX {
            lemma_apply_shift(screen.put(byte as char), a, b, from + 1);
        }
    }
}

/// Reading a stream that begins with bytes which can be read by themselves
/// is reading those bytes and then going on behind them.
pub proof fn lemma_apply_prefix(screen: Screen, bytes: Seq<u8>, n: int, from: int)
    requires
        0 <= from <= n <= bytes.len(),
        apply(screen, bytes.take(n), from).ok,
    ensures
        apply(screen, bytes, from) == apply(apply(screen, bytes.take(n), from).screen, bytes, n),
    decreases n - from,
{
    let head = bytes.take(n);
    if from < n {
        assert(head[from] == bytes[from]);
        let byte = bytes[from];
        if byte == LINE_FEED {
            lemma_apply_prefix(screen.line_feed(), bytes, n, from + 1);
        } else if byte == CARRIAGE_RETURN {
            lemma_apply_prefix(screen.carriage_return(), bytes, n, from + 1);
        } else if byte == ESCAPE {
            let escape = read_escape(head, from + 1).unwrap();
            lemma_read_escape_agrees(head, bytes, from + 1);
            let next = screen.escape_effect(escape).unwrap();
            lemma_apply_prefix(next, bytes, n, from + 1 + escape.len);
        } else {
            lemma_apply_prefix(screen.put(byte as char), bytes, n, from + 1);
        }
    }
}

/// A stream of two parts, the first of which can be read by itself, is read
/// as the first part and then the second.
pub proof fn lemma_apply_in_two(screen: Screen, first: Seq<u8>, second: Seq<u8>)
    requires
        apply(screen, first, 0).ok,
    ensures
        apply(screen, first + second, 0) == apply(apply(screen, first, 0).screen, second, 0),
{
    let whole = first + second;
    assert(whole.take(first.len() as int) =~= first);
    lemma_apply_prefix(screen, whole, first.len() as int, 0);
    lemma_apply_shift(apply(screen, first, 0).screen, first, second, 0);
}

} // verus!
