//! Facts about the well-formed prefix of a byte sequence.
use crate::model::{starts_with_scalar, well_formed_len};
use crate::ranges::lemma_scalar_ranges;
use vstd::prelude::*;
use vstd::utf8::{
    decode_first_scalar, decode_utf8, length_of_first_scalar, pop_first_scalar,
    valid_first_scalar, valid_utf8, valid_utf8_concat,
};

verus! {

/// A sequence that starts with a whole scalar still does so when bytes are
/// taken from or added to its end, as long as the scalar stays whole.
pub proof fn lemma_first_scalar_local(s: Seq<u8>, t: Seq<u8>)
    requires
        valid_first_scalar(s),
        t.len() >= length_of_first_scalar(s),
        t.take(length_of_first_scalar(s)) =~= s.take(length_of_first_scalar(s)),
    ensures
        valid_first_scalar(t),
        length_of_first_scalar(t) == length_of_first_scalar(s),
{
    let w = length_of_first_scalar(s);
    assert forall|i: int| 0 <= i < w implies t[i] == s[i] by {
        assert(t.take(w)[i] == s.take(w)[i]);
    }
}

/// The bytes of the scalar that `s` starts with are well-formed on their
/// own and decode to that one scalar.
pub proof fn lemma_single_scalar(s: Seq<u8>)
    requires
        valid_first_scalar(s),
    ensures
        valid_utf8(s.take(length_of_first_scalar(s))),
        decode_utf8(s.take(length_of_first_scalar(s))) == seq![decode_first_scalar(s) as char],
        decode_first_scalar(s.take(length_of_first_scalar(s))) == decode_first_scalar(s),
        (decode_first_scalar(s) as char) as u32 == decode_first_scalar(s),
{
    let w = length_of_first_scalar(s);
    let head = s.take(w);
    assert(head.take(w) =~= head);
    lemma_first_scalar_local(s, head);
    lemma_scalar_ranges(s);
    assert(pop_first_scalar(head) =~= Seq::<u8>::empty());
    reveal_with_fuel(valid_utf8, 2);
    reveal_with_fuel(decode_utf8, 2);
    assert(decode_first_scalar(head) == decode_first_scalar(s));
    assert(decode_utf8(head) =~= seq![decode_first_scalar(s) as char]);
}

/// The well-formed prefix lies within the sequence and is well-formed.
pub proof fn lemma_well_formed_len_valid(s: Seq<u8>)
    ensures
        0 <= well_formed_len(s) <= s.len(),
        valid_utf8(s.take(well_formed_len(s))),
    decreases s.len(),
{
    lemma_scalar_ranges(s);
    if starts_with_scalar(s) {
        let w = length_of_first_scalar(s);
        let rest = pop_first_scalar(s);
        lemma_well_formed_len_valid(rest);
        let n = well_formed_len(rest);
        let head = s.take(w);
        lemma_single_scalar(s);
        valid_utf8_concat(head, rest.take(n));
        assert(s.take(w + n) =~= head + rest.take(n));
    } else {
        assert(s.take(0) =~= Seq::<u8>::empty());
    }
}

/// Behind the well-formed prefix no whole scalar follows.
pub proof fn lemma_well_formed_len_rest(s: Seq<u8>)
    ensures
        !starts_with_scalar(s.skip(well_formed_len(s))),
    decreases s.len(),
{
    lemma_scalar_ranges(s);
    if starts_with_scalar(s) {
        let rest = pop_first_scalar(s);
        lemma_well_formed_len_rest(rest);
        lemma_well_formed_len_valid(rest);
        assert(rest.skip(well_formed_len(rest)) =~= s.skip(well_formed_len(s)));
    } else {
        assert(s.skip(0) =~= s);
    }
}

/// No prefix longer than the well-formed prefix is well-formed.
pub proof fn lemma_well_formed_len_maximal(s: Seq<u8>, m: int)
    requires
        well_formed_len(s) < m <= s.len(),
    ensures
        !valid_utf8(s.take(m)),
    decreases s.len(),
{
    let t = s.take(m);
    lemma_well_formed_len_valid(s);
    lemma_scalar_ranges(s);
    if valid_utf8(t) {
        let v = length_of_first_scalar(t);
        assert(s.take(v) =~= t.take(v));
        lemma_first_scalar_local(t, s);
        let w = length_of_first_scalar(s);
        let rest = pop_first_scalar(s);
        lemma_well_formed_len_valid(rest);
        assert(pop_first_scalar(t) =~= rest.take(m - w));
        lemma_well_formed_len_maximal(rest, m - w);
    }
}

/// Well-formed bytes in front are counted whole, and the count goes on
/// behind them.
pub proof fn lemma_well_formed_len_concat(good: Seq<u8>, rest: Seq<u8>)
    requires
        valid_utf8(good),
    ensures
        well_formed_len(good + rest) == good.len() + well_formed_len(rest),
    decreases good.len(),
{
    if good.len() == 0 {
        assert(good + rest =~= rest);
    } else {
        let w = length_of_first_scalar(good);
        assert((good + rest).take(w) =~= good.take(w));
        lemma_first_scalar_local(good, good + rest);
        lemma_scalar_ranges(good + rest);
        assert(pop_first_scalar(good + rest) =~= pop_first_scalar(good) + rest);
        lemma_well_formed_len_concat(pop_first_scalar(good), rest);
    }
}

/// A sequence is well-formed exactly when its well-formed prefix is the
/// whole of it.
pub proof fn lemma_well_formed_len_whole(s: Seq<u8>)
    ensures
        valid_utf8(s) <==> well_formed_len(s) == s.len(),
{
    lemma_well_formed_len_valid(s);
    assert(s.take(s.len() as int) =~= s);
    if well_formed_len(s) < s.len() {
        lemma_well_formed_len_maximal(s, s.len() as int);
    }
}

} // verus!
