//! What holds of every input: the laws of the step decoder and of the
//! completer, stated over the model of `crate::model` and proved.
use crate::classify::width;
use crate::model::{
    accepts, complete_outcome, is_incomplete, starts_with_scalar, step_outcome, subpart_len,
    well_formed_len, CompleteOutcome, StepOutcome,
};
use crate::prefix::{
    lemma_single_scalar, lemma_well_formed_len_concat, lemma_well_formed_len_maximal,
    lemma_well_formed_len_rest, lemma_well_formed_len_valid, lemma_well_formed_len_whole,
};
use crate::ranges::lemma_scalar_ranges;
use vstd::prelude::*;
use vstd::utf8::{
    decode_first_codepoint, decode_first_scalar, decode_utf8, length_of_first_codepoint,
    length_of_first_scalar, valid_first_scalar, valid_leading_and_continuation_bytes_first_codepoint,
    valid_utf8,
};

verus! {

/// A well-formed input comes back whole: the prefix is the input itself and
/// the status says that all of it was well-formed. No other input gets that
/// status.
pub proof fn well_formed_input_is_returned_whole(s: Seq<u8>)
    ensures
        valid_utf8(s) ==> step_outcome(s) == (s, StepOutcome::WellFormed),
        step_outcome(s).1 is WellFormed ==> valid_utf8(s),
{
    lemma_well_formed_len_whole(s);
    lemma_well_formed_len_valid(s);
    if valid_utf8(s) {
        assert(s.take(s.len() as int) =~= s);
        assert(s.skip(s.len() as int) =~= Seq::<u8>::empty());
    }
}

/// The prefix that a step returns is well-formed, and no longer prefix of
/// the input is.
pub proof fn prefix_is_the_longest_well_formed(s: Seq<u8>)
    ensures
        valid_utf8(step_outcome(s).0),
        forall|m: int|
            step_outcome(s).0.len() < m <= s.len() ==> !valid_utf8(#[trigger] s.take(m)),
{
    lemma_well_formed_len_valid(s);
    assert forall|m: int| step_outcome(s).0.len() < m <= s.len() implies !valid_utf8(
        #[trigger] s.take(m),
    ) by {
        lemma_well_formed_len_maximal(s, m);
    }
}

/// The bytes between the well-formed prefix of `s` and the place where a
/// step on `s` stops: the maximal subpart that an error stands for, or the
/// bytes of a sequence that the end of `s` cut.
pub open spec fn step_subpart(s: Seq<u8>) -> Seq<u8> {
    let rest = s.skip(well_formed_len(s));
    rest.take(subpart_len(rest))
}

/// What a step on `s` leaves to be scanned: the remainder behind an error,
/// nothing otherwise.
pub open spec fn step_remaining(s: Seq<u8>) -> Seq<u8> {
    match step_outcome(s).1 {
        StepOutcome::Error { remaining } => remaining,
        _ => Seq::empty(),
    }
}

/// A step accounts for every byte of its input exactly once: the
/// well-formed prefix, the subpart behind it and the remainder, in this
/// order, make up the input. The subpart has at most three bytes; a cut
/// sequence is handed on as it stands, and behind a wholly well-formed input
/// there is none.
pub proof fn step_accounts_for_every_byte(s: Seq<u8>)
    ensures
        step_outcome(s).0 + step_subpart(s) + step_remaining(s) == s,
        step_subpart(s).len() <= 3,
        step_outcome(s).1 is WellFormed ==> step_subpart(s).len() == 0,
        step_outcome(s).1 matches StepOutcome::Incomplete { pending } ==> pending == step_subpart(
            s,
        ),
{
    lemma_well_formed_len_valid(s);
    let n = well_formed_len(s);
    let rest = s.skip(n);
    let m = subpart_len(rest);
    lemma_well_formed_len_rest(s);
    assert(rest.take(m) + rest.skip(m) =~= rest);
    assert(s.take(n) + rest =~= s);
    assert(s.take(n) + rest.take(m) + rest.skip(m) =~= s);
    if m == rest.len() {
        assert(rest.take(m) =~= rest);
        assert(s.take(n) + rest.take(m) + Seq::<u8>::empty() =~= s);
    }
}

/// The bytes accounted for, in the order of the calls, when a step is made
/// on `s` and then on the remainder of each error, `steps` times in all.
pub open spec fn accounted(s: Seq<u8>, steps: nat) -> Seq<u8>
    decreases steps,
{
    if steps == 0 {
        Seq::empty()
    } else {
        step_outcome(s).0 + step_subpart(s) + accounted(step_remaining(s), (steps - 1) as nat)
    }
}

/// What is left to be scanned after `steps` steps, the first on `s` and each
/// further one on the remainder that the one before it left.
pub open spec fn unread(s: Seq<u8>, steps: nat) -> Seq<u8>
    decreases steps,
{
    if steps == 0 {
        s
    } else {
        unread(step_remaining(s), (steps - 1) as nat)
    }
}

/// Resuming on the remainder of each error neither drops nor repeats a
/// byte: after any number of steps, what they accounted for, followed by
/// what is still unread, is the input.
pub proof fn resuming_accounts_for_every_byte(s: Seq<u8>, steps: nat)
    ensures
        accounted(s, steps) + unread(s, steps) == s,
    decreases steps,
{
    if steps == 0 {
        assert(Seq::<u8>::empty() + s =~= s);
    } else {
        step_accounts_for_every_byte(s);
        let next = step_remaining(s);
        resuming_accounts_for_every_byte(next, (steps - 1) as nat);
        let head = step_outcome(s).0 + step_subpart(s);
        let tail = accounted(next, (steps - 1) as nat);
        assert((head + tail) + unread(next, (steps - 1) as nat) =~= head + (tail + unread(
            next,
            (steps - 1) as nat,
        )));
    }
}

/// A step that ends with an error leaves less than it was given, with one
/// exception: where the input starts with a byte that can lead nothing, the
/// remainder is the input itself.
pub proof fn error_leaves_less(s: Seq<u8>)
    requires
        step_outcome(s).1 is Error,
    ensures
        width(s[0]) != 0 ==> step_remaining(s).len() < s.len(),
        width(s[0]) == 0 ==> step_remaining(s) == s,
{
    lemma_well_formed_len_valid(s);
    let n = well_formed_len(s);
    let rest = s.skip(n);
    if width(s[0]) == 0 {
        lemma_scalar_ranges(s);
        assert(rest =~= s);
        assert(rest.skip(0) =~= s);
    } else if n == 0 {
        assert(rest =~= s);
    }
}

/// Completing composes: where a chunk `x` leaves the sequence still
/// incomplete, going on with a chunk `y` gives what the two chunks would
/// have given as one.
pub proof fn completing_composes(pending: Seq<u8>, x: Seq<u8>, y: Seq<u8>)
    requires
        is_incomplete(pending),
        complete_outcome(pending, x) is StillIncomplete,
    ensures
        complete_outcome(pending, x) == (CompleteOutcome::StillIncomplete { pending: pending + x }),
        is_incomplete(pending + x),
        complete_outcome(pending + x, y) == complete_outcome(pending, x + y),
{
    let q = pending + x;
    let s = q + y;
    assert(s =~= pending + (x + y));
    let m = subpart_len(s);
    assert(accepts(s, q.len() as int));
    if starts_with_scalar(s) {
        let w = width(s[0]) as int;
        assert(y.skip(w - q.len()) =~= (x + y).skip(w - pending.len()));
    } else if m != s.len() {
        assert(y.skip(m - q.len()) =~= (x + y).skip(m - pending.len()));
    }
}

/// A scalar that the chunk boundary cuts at any place is resolved to the
/// same code point as when it is decoded in one piece. With `c` the
/// encoding of one scalar, cut after `k` bytes, behind well-formed bytes
/// `good` and in front of any bytes `rest`: the step on the first chunk
/// returns `good` and hands on the first `k` bytes of `c`; completing them
/// on the second chunk gives `c` and leaves `rest`; and the step on the
/// uncut input takes `c` into its prefix, where it decodes to the one
/// character that `c` encodes.
pub proof fn split_scalar_is_resolved(good: Seq<u8>, c: Seq<u8>, k: int, rest: Seq<u8>)
    requires
        valid_utf8(good),
        valid_first_scalar(c),
        c.len() == length_of_first_scalar(c),
        0 < k < c.len(),
    ensures
        step_outcome(good + c.take(k)) == (good, StepOutcome::Incomplete { pending: c.take(k) }),
        is_incomplete(c.take(k)),
        complete_outcome(c.take(k), c.skip(k) + rest) == (CompleteOutcome::Complete {
            code_point: c,
            remaining: rest,
        }),
        step_outcome(good + c) == (good + c, StepOutcome::WellFormed),
        decode_utf8(good + c) == decode_utf8(good) + seq![decode_first_scalar(c) as char],
{
    let head = c.take(k);
    let tail = c.skip(k) + rest;
    lemma_scalar_ranges(c);
    lemma_scalar_ranges(head);
    // The first chunk.
    lemma_well_formed_len_concat(good, head);
    assert((good + head).skip(good.len() as int) =~= head);
    assert((good + head).take(good.len() as int) =~= good);
    // The second chunk.
    let s = head + tail;
    assert(s =~= c + rest);
    lemma_scalar_ranges(s);
    assert(s.take(c.len() as int) =~= c);
    assert(tail.skip(c.len() - k) =~= rest);
    // The input in one piece.
    assert(c.take(c.len() as int) =~= c);
    lemma_single_scalar(c);
    vstd::utf8::valid_utf8_concat(good, c);
    well_formed_input_is_returned_whole(good + c);
    lemma_decode_concat(good, c);
}

/// Chunk boundaries do not matter behind well-formed bytes: a step on
/// well-formed bytes `a` followed by `b` returns `a` and then whatever a
/// step on `b` alone returns.
pub proof fn step_goes_on_behind_well_formed(a: Seq<u8>, b: Seq<u8>)
    requires
        valid_utf8(a),
    ensures
        step_outcome(a + b) == (a + step_outcome(b).0, step_outcome(b).1),
{
    lemma_well_formed_len_concat(a, b);
    lemma_well_formed_len_valid(b);
    let n = well_formed_len(b);
    assert((a + b).take(a.len() + n) =~= a + b.take(n));
    assert((a + b).skip(a.len() + n) =~= b.skip(n));
}

/// An error is final: bytes that arrive later change neither the prefix nor
/// the place of the error, and are found behind its remainder.
pub proof fn error_is_final(a: Seq<u8>, b: Seq<u8>)
    requires
        step_outcome(a).1 is Error,
    ensures
        step_outcome(a + b) == (
            step_outcome(a).0,
            StepOutcome::Error { remaining: step_remaining(a) + b },
        ),
{
    lemma_well_formed_len_valid(a);
    lemma_well_formed_len_rest(a);
    let n = well_formed_len(a);
    let rest = a.skip(n);
    let m = subpart_len(rest);
    assert(a + b =~= a.take(n) + (rest + b));
    lemma_well_formed_len_concat(a.take(n), rest + b);
    lemma_scalar_ranges(rest + b);
    assert((a + b).take(n) =~= a.take(n));
    assert((a + b).skip(n) =~= rest + b);
    assert((rest + b).skip(m) =~= rest.skip(m) + b);
}

/// A cut sequence is resumed as if it had not been cut: where a step on `a`
/// hands on an incomplete sequence, completing it on the next chunk `b`
/// and, once it is whole, a step on what it leaves, give together what a
/// step on `a` followed by `b` gives.
pub proof fn resuming_equals_one_step(a: Seq<u8>, b: Seq<u8>)
    requires
        step_outcome(a).1 is Incomplete,
    ensures
        is_incomplete(step_subpart(a)),
        step_outcome(a).1 == (StepOutcome::Incomplete { pending: step_subpart(a) }),
        match complete_outcome(step_subpart(a), b) {
            CompleteOutcome::Complete { code_point, remaining } => step_outcome(a + b) == (
                step_outcome(a).0 + code_point + step_outcome(remaining).0,
                step_outcome(remaining).1,
            ),
            CompleteOutcome::Error { remaining } => step_outcome(a + b) == (
                step_outcome(a).0,
                StepOutcome::Error { remaining },
            ),
            CompleteOutcome::StillIncomplete { pending } => step_outcome(a + b) == (
                step_outcome(a).0,
                StepOutcome::Incomplete { pending },
            ),
        },
{
    lemma_well_formed_len_valid(a);
    lemma_well_formed_len_rest(a);
    let g = a.take(well_formed_len(a));
    let p = a.skip(well_formed_len(a));
    assert(p.take(p.len() as int) =~= p);
    let s = p + b;
    assert(a + b =~= g + s);
    step_goes_on_behind_well_formed(g, s);
    lemma_scalar_ranges(s);
    let m = subpart_len(s);
    assert(accepts(s, p.len() as int));
    if starts_with_scalar(s) {
        let w = width(s[0]) as int;
        let code_point = s.take(w);
        let remaining = b.skip(w - p.len());
        assert(s =~= code_point + remaining);
        lemma_single_scalar(s);
        step_goes_on_behind_well_formed(code_point, remaining);
        assert(g + (code_point + step_outcome(remaining).0) =~= g + code_point + step_outcome(
            remaining,
        ).0);
    } else {
        assert(s.take(0) =~= Seq::<u8>::empty());
        assert(s.skip(0) =~= s);
        assert(g + Seq::<u8>::empty() =~= g);
        if m != s.len() {
            assert(b.skip(m - p.len()) =~= s.skip(m));
        }
    }
}

/// Bytes that have the shape of a scalar but encode none are an error,
/// whole or cut: a step stops in front of them, and completing what a step
/// handed on of them fails.
proof fn lemma_ill_formed_scalar(good: Seq<u8>, bad: Seq<u8>)
    requires
        valid_utf8(good),
        valid_leading_and_continuation_bytes_first_codepoint(bad),
        !valid_first_scalar(bad),
    ensures
        step_outcome(good + bad).0 == good,
        step_outcome(good + bad).1 is Error,
        forall|k: int|
            0 < k < bad.len() && is_incomplete(#[trigger] bad.take(k)) ==> complete_outcome(
                bad.take(k),
                bad.skip(k),
            ) is Error,
{
    lemma_scalar_ranges(bad);
    step_goes_on_behind_well_formed(good, bad);
    assert(bad.take(0) =~= Seq::<u8>::empty());
    assert(bad.skip(0) =~= bad);
    assert(good + Seq::<u8>::empty() =~= good);
    assert forall|k: int| 0 < k < bad.len() && is_incomplete(#[trigger] bad.take(k)) implies complete_outcome(
        bad.take(k),
        bad.skip(k),
    ) is Error by {
        assert(bad.take(k) + bad.skip(k) =~= bad);
    }
}

/// Overlong forms always yield an error. Where the bytes behind a
/// well-formed prefix have the shape of a sequence of two, three or four
/// bytes whose value would have fitted into fewer, the step returns that
/// prefix and an error; and where a chunk boundary cut them and a step
/// handed their first bytes on, completing them yields an error.
pub proof fn overlong_form_is_an_error(good: Seq<u8>, bad: Seq<u8>)
    requires
        valid_utf8(good),
        valid_leading_and_continuation_bytes_first_codepoint(bad),
        (length_of_first_codepoint(bad) == 2 && decode_first_codepoint(bad) < 0x80) || (
        length_of_first_codepoint(bad) == 3 && decode_first_codepoint(bad) < 0x800) || (
        length_of_first_codepoint(bad) == 4 && decode_first_codepoint(bad) < 0x10000),
    ensures
        step_outcome(good + bad).0 == good,
        step_outcome(good + bad).1 is Error,
        forall|k: int|
            0 < k < bad.len() && is_incomplete(#[trigger] bad.take(k)) ==> complete_outcome(
                bad.take(k),
                bad.skip(k),
            ) is Error,
{
    lemma_ill_formed_scalar(good, bad);
}

/// Surrogates always yield an error. Where the bytes behind a well-formed
/// prefix have the shape of a sequence whose value lies between U+D800 and
/// U+DFFF (`ED A0 80` to `ED BF BF`), the step returns that prefix and an
/// error; and where a chunk boundary cut them and a step handed their first
/// bytes on, completing them yields an error.
pub proof fn surrogate_is_an_error(good: Seq<u8>, bad: Seq<u8>)
    requires
        valid_utf8(good),
        valid_leading_and_continuation_bytes_first_codepoint(bad),
        0xD800 <= decode_first_codepoint(bad) <= 0xDFFF,
    ensures
        step_outcome(good + bad).0 == good,
        step_outcome(good + bad).1 is Error,
        forall|k: int|
            0 < k < bad.len() && is_incomplete(#[trigger] bad.take(k)) ==> complete_outcome(
                bad.take(k),
                bad.skip(k),
            ) is Error,
{
    lemma_ill_formed_scalar(good, bad);
}

/// Values above U+10FFFF always yield an error. Where the bytes behind a
/// well-formed prefix have the shape of a sequence of four bytes whose
/// value is above U+10FFFF (a leading `F4` with a second byte above `8F`,
/// or a leading byte above `F4`), the step returns that prefix and an
/// error; and where a chunk boundary cut them and a step handed their first
/// bytes on, completing them yields an error.
pub proof fn value_above_the_last_scalar_is_an_error(good: Seq<u8>, bad: Seq<u8>)
    requires
        valid_utf8(good),
        valid_leading_and_continuation_bytes_first_codepoint(bad),
        decode_first_codepoint(bad) > 0x10FFFF,
    ensures
        step_outcome(good + bad).0 == good,
        step_outcome(good + bad).1 is Error,
        forall|k: int|
            0 < k < bad.len() && is_incomplete(#[trigger] bad.take(k)) ==> complete_outcome(
                bad.take(k),
                bad.skip(k),
            ) is Error,
{
    lemma_scalar_ranges(bad);
    lemma_ill_formed_scalar(good, bad);
}

/// Bytes that make the accepted bytes `p` a whole scalar: the lowest byte
/// that may stand at each place still open.
pub open spec fn completion(p: Seq<u8>) -> Seq<u8> {
    let second: u8 = if p[0] == 0xE0 {
        0xA0
    } else if p[0] == 0xF0 {
        0x90
    } else {
        0x80
    };
    seq![second, 0x80u8, 0x80u8].subrange(p.len() - 1, width(p[0]) - 1)
}

/// With its completion behind them, accepted bytes are one whole scalar.
proof fn lemma_completion(p: Seq<u8>)
    requires
        accepts(p, p.len() as int),
    ensures
        valid_first_scalar(p + completion(p)),
        length_of_first_scalar(p + completion(p)) == (p + completion(p)).len(),
        valid_utf8(p + completion(p)),
{
    let full = p + completion(p);
    assert(full.len() == width(p[0]));
    assert(starts_with_scalar(full));
    lemma_scalar_ranges(full);
    lemma_single_scalar(full);
    assert(full.take(full.len() as int) =~= full);
}

/// The range checks accept exactly the bytes that could still become a
/// scalar: the first `k` bytes of `s` pass them if and only if some bytes
/// behind those `k` would make one whole well-formed scalar of them. So the
/// bytes counted by `subpart_len` are the maximal subpart of an ill-formed
/// sequence.
pub proof fn accepted_bytes_can_become_a_scalar(s: Seq<u8>, k: int)
    requires
        1 <= k <= s.len(),
    ensures
        accepts(s, k) <==> exists|t: Seq<u8>|
            valid_first_scalar(#[trigger] (s.take(k) + t)) && k <= length_of_first_scalar(
                s.take(k) + t,
            ),
{
    let p = s.take(k);
    if accepts(s, k) {
        assert(accepts(p, k));
        lemma_completion(p);
        let t = completion(p);
        assert(valid_first_scalar(p + t) && k <= length_of_first_scalar(p + t));
    }
    if exists|t: Seq<u8>|
        valid_first_scalar(#[trigger] (p + t)) && k <= length_of_first_scalar(p + t) {
        let t = choose|t: Seq<u8>|
            valid_first_scalar(#[trigger] (p + t)) && k <= length_of_first_scalar(p + t);
        lemma_scalar_ranges(p + t);
        assert(accepts(p + t, k));
    }
}

/// What the status says of the bytes still to come. An error means that no
/// continuation of the input is well-formed. An incomplete sequence means
/// that the input is not well-formed as it stands and that some
/// continuation of it is.
pub proof fn status_tells_what_may_follow(s: Seq<u8>)
    ensures
        step_outcome(s).1 is Error <==> forall|t: Seq<u8>| !valid_utf8(#[trigger] (s + t)),
        step_outcome(s).1 is Incomplete <==> !valid_utf8(s) && exists|t: Seq<u8>|
            valid_utf8(#[trigger] (s + t)),
{
    well_formed_input_is_returned_whole(s);
    assert(s + Seq::<u8>::empty() =~= s);
    match step_outcome(s).1 {
        StepOutcome::Error { remaining } => {
            assert forall|t: Seq<u8>| !valid_utf8(#[trigger] (s + t)) by {
                error_is_final(s, t);
                well_formed_input_is_returned_whole(s + t);
            }
        },
        StepOutcome::Incomplete { pending } => {
            lemma_well_formed_len_valid(s);
            lemma_well_formed_len_rest(s);
            let good = s.take(well_formed_len(s));
            assert(pending.take(pending.len() as int) =~= pending);
            lemma_completion(pending);
            let t = completion(pending);
            vstd::utf8::valid_utf8_concat(good, pending + t);
            assert(s + t =~= good + (pending + t));
            assert(valid_utf8(s + t));
        },
        StepOutcome::WellFormed => {
            assert(valid_utf8(s + Seq::<u8>::empty()));
        },
    }
}

/// Decoding goes through a concatenation of well-formed parts.
proof fn lemma_decode_concat(a: Seq<u8>, b: Seq<u8>)
    requires
        valid_utf8(a),
        valid_utf8(b),
    ensures
        decode_utf8(a + b) == decode_utf8(a) + decode_utf8(b),
{
    vstd::utf8::valid_utf8_concat(a, b);
    vstd::utf8::is_char_boundary_start_end_of_seq(a);
    lemma_boundary_concat(a, b);
    vstd::utf8::decode_utf8_split(a + b, a.len() as int);
    assert((a + b).subrange(0, a.len() as int) =~= a);
    assert((a + b).subrange(a.len() as int, (a + b).len() as int) =~= b);
}

/// The end of a well-formed part is a character boundary of what it is
/// followed by.
proof fn lemma_boundary_concat(a: Seq<u8>, b: Seq<u8>)
    requires
        valid_utf8(a),
        valid_utf8(b),
    ensures
        vstd::utf8::is_char_boundary(a + b, a.len() as int),
    decreases a.len(),
{
    vstd::utf8::valid_utf8_concat(a, b);
    if a.len() > 0 {
        let w = length_of_first_scalar(a);
        assert((a + b).take(w) =~= a.take(w));
        crate::prefix::lemma_first_scalar_local(a, a + b);
        assert(vstd::utf8::pop_first_scalar(a + b) =~= vstd::utf8::pop_first_scalar(a) + b);
        lemma_boundary_concat(vstd::utf8::pop_first_scalar(a), b);
    }
}

} // verus!
