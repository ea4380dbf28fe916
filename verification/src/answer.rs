//! The text of the answer: "NO", or "YES" followed by each set as its size
//! on one line and its elements, separated by spaces, on the next.
use vstd::prelude::*;
use vstd::string::StringSliceAdditionalSpecFns;
use crate::text::{is_space, decimal, digits_value, lemma_decimal_digits, lemma_decimal_value};
use crate::scanner::{
    tokens_from,
    lemma_tokens_space_front,
    lemma_tokens_token_front,
};
use crate::writer::FastWriter;

verus! {

/// The decimal spellings of the elements of `s`, separated by single spaces.
pub open spec fn joined(s: Seq<u32>) -> Seq<u8>
    decreases s.len(),
{
    if s.len() == 0 {
        Seq::empty()
    } else if s.len() == 1 {
        decimal(s[0] as nat)
    } else {
        joined(s.drop_last()) + seq![32u8] + decimal(s.last() as nat)
    }
}

/// One set: its size (taken as a u32) on a line, then its elements on the
/// next line.
pub open spec fn set_text(s: Seq<u32>) -> Seq<u8> {
    decimal((s.len() as u32) as nat) + seq![10u8] + joined(s) + seq![10u8]
}

/// The whole answer for the result of a solver.
pub open spec fn answer_text(answer: Option<(Seq<u32>, Seq<u32>)>) -> Seq<u8> {
    match answer {
        None => seq![78u8, 79u8, 10u8],
        Some((a, b)) => seq![89u8, 69u8, 83u8, 10u8] + set_text(a) + set_text(b),
    }
}

/// The result of a solver with each set taken by its view.
pub open spec fn answer_view(answer: Option<(Vec<u32>, Vec<u32>)>) -> Option<(Seq<u32>, Seq<u32>)> {
    match answer {
        None => None,
        Some((a, b)) => Some((a@, b@)),
    }
}

/// The decimal spelling of a number holds no whitespace byte.
proof fn lemma_decimal_no_space(n: nat)
    ensures
        decimal(n).len() >= 1,
        forall|i: int| 0 <= i < decimal(n).len() ==> !is_space(#[trigger] decimal(n)[i]),
{
    lemma_decimal_digits(n);
    assert forall|i: int| 0 <= i < decimal(n).len() implies !is_space(#[trigger] decimal(n)[i]) by {
        assert(48 <= decimal(n)[i] <= 57);
    }
}

/// An element line starts with the first element and continues with a
/// space and the line of the remaining elements.
proof fn lemma_joined_front(s: Seq<u32>)
    requires
        s.len() >= 2,
    ensures
        joined(s) == decimal(s[0] as nat) + (seq![32u8] + joined(s.drop_first())),
    decreases s.len(),
{
    let t = s.drop_first();
    if s.len() == 2 {
        assert(s.drop_last() =~= seq![s[0]]);
        assert(t =~= seq![s[1]]);
        assert(joined(s.drop_last()) == decimal(s[0] as nat));
        assert(joined(s) =~= decimal(s[0] as nat) + (seq![32u8] + joined(t)));
    } else {
        lemma_joined_front(s.drop_last());
        assert(s.drop_last().drop_first() =~= t.drop_last());
        assert(t.last() == s.last());
        assert(joined(s) =~= decimal(s[0] as nat) + (seq![32u8] + joined(t)));
    }
}

/// Scanning an element line, then whatever follows after whitespace, reads
/// the decimal spelling of each element in turn, then the tokens of what
/// follows.
proof fn lemma_joined_tokens(s: Seq<u32>, rest: Seq<u8>)
    requires
        rest.len() == 0 || is_space(rest[0]),
    ensures
        tokens_from(joined(s) + rest, 0) == s.map_values(|v: u32| decimal(v as nat)) + tokens_from(
            rest,
            0,
        ),
    decreases s.len(),
{
    let m = s.map_values(|v: u32| decimal(v as nat));
    if s.len() == 0 {
        assert(joined(s) + rest =~= rest);
        assert(m =~= Seq::<Seq<u8>>::empty());
        assert(m + tokens_from(rest, 0) =~= tokens_from(rest, 0));
    } else if s.len() == 1 {
        lemma_decimal_no_space(s[0] as nat);
        lemma_tokens_token_front(decimal(s[0] as nat), rest);
        assert(m =~= seq![decimal(s[0] as nat)]);
    } else {
        let t = s.drop_first();
        let d = decimal(s[0] as nat);
        lemma_joined_front(s);
        lemma_decimal_no_space(s[0] as nat);
        let tail = seq![32u8] + (joined(t) + rest);
        assert(joined(s) + rest =~= d + tail);
        lemma_tokens_token_front(d, tail);
        lemma_tokens_space_front(32u8, joined(t) + rest);
        lemma_joined_tokens(t, rest);
        assert(m =~= seq![d] + t.map_values(|v: u32| decimal(v as nat)));
    }
}

/// Scanning the element line of a set reads back exactly the set's
/// elements, in order: one token per element, and the i-th token is the
/// decimal spelling of the i-th element and has its value.
pub proof fn lemma_element_line_scans_to_set(s: Seq<u32>)
    ensures
        tokens_from(joined(s), 0).len() == s.len(),
        forall|i: int|
            0 <= i < s.len() ==> {
                &&& #[trigger] tokens_from(joined(s), 0)[i] == decimal(s[i] as nat)
                &&& digits_value(tokens_from(joined(s), 0)[i]) == s[i]
            },
{
    lemma_joined_tokens(s, Seq::empty());
    assert(joined(s) + Seq::<u8>::empty() =~= joined(s));
    assert(tokens_from(Seq::<u8>::empty(), 0) =~= Seq::<Seq<u8>>::empty());
    assert forall|i: int| 0 <= i < s.len() implies {
        &&& #[trigger] tokens_from(joined(s), 0)[i] == decimal(s[i] as nat)
        &&& digits_value(tokens_from(joined(s), 0)[i]) == s[i]
    } by {
        lemma_decimal_value(s[i] as nat);
    }
}

/// Scanning the text of a set, then whatever follows, reads the set's size,
/// its elements, then the tokens of what follows.
proof fn lemma_set_text_tokens(s: Seq<u32>, rest: Seq<u8>)
    ensures
        tokens_from(set_text(s) + rest, 0) == seq![decimal((s.len() as u32) as nat)] + s.map_values(
            |v: u32| decimal(v as nat),
        ) + tokens_from(rest, 0),
{
    let d = decimal((s.len() as u32) as nat);
    let after = seq![10u8] + (joined(s) + (seq![10u8] + rest));
    assert(set_text(s) + rest =~= d + after);
    lemma_decimal_no_space((s.len() as u32) as nat);
    lemma_tokens_token_front(d, after);
    lemma_tokens_space_front(10u8, joined(s) + (seq![10u8] + rest));
    lemma_joined_tokens(s, seq![10u8] + rest);
    lemma_tokens_space_front(10u8, rest);
}

/// Scanning the answer for a split (a, b) reads YES, then the size of a,
/// every element of a in order, the size of b, and every element of b in
/// order, and nothing else; the answer for no split reads NO alone.
pub proof fn lemma_answer_scans_to_sets(a: Seq<u32>, b: Seq<u32>)
    ensures
        tokens_from(answer_text(Some((a, b))), 0) == seq![seq![89u8, 69u8, 83u8]] + seq![
            decimal((a.len() as u32) as nat),
        ] + a.map_values(|v: u32| decimal(v as nat)) + seq![decimal((b.len() as u32) as nat)]
            + b.map_values(|v: u32| decimal(v as nat)),
        ({
            let t = tokens_from(answer_text(Some((a, b))), 0);
            &&& t.len() == 3 + a.len() + b.len()
            &&& digits_value(t[1]) == a.len() as u32
            &&& forall|i: int| 0 <= i < a.len() ==> digits_value(#[trigger] t[2 + i]) == a[i]
            &&& digits_value(t[2 + a.len() as int]) == b.len() as u32
            &&& forall|j: int|
                0 <= j < b.len() ==> digits_value(#[trigger] t[3 + a.len() + j]) == b[j]
        }),
        tokens_from(answer_text(None), 0) == seq![seq![78u8, 79u8]],
{
    let yes = seq![89u8, 69u8, 83u8];
    let tb = set_text(b);
    let after_yes = seq![10u8] + (set_text(a) + tb);
    assert(answer_text(Some((a, b))) =~= yes + after_yes);
    assert forall|i: int| 0 <= i < yes.len() implies !is_space(#[trigger] yes[i]) by {}
    lemma_tokens_token_front(yes, after_yes);
    lemma_tokens_space_front(10u8, set_text(a) + tb);
    let d_b = decimal((b.len() as u32) as nat);
    lemma_set_text_tokens(a, tb);
    lemma_set_text_tokens(b, Seq::empty());
    assert(tb + Seq::<u8>::empty() =~= tb);
    assert(tokens_from(Seq::<u8>::empty(), 0) =~= Seq::<Seq<u8>>::empty());
    let t = tokens_from(answer_text(Some((a, b))), 0);
    let ma = a.map_values(|v: u32| decimal(v as nat));
    let mb = b.map_values(|v: u32| decimal(v as nat));
    assert(t =~= seq![yes] + seq![decimal((a.len() as u32) as nat)] + ma + seq![d_b] + mb);
    lemma_decimal_value((a.len() as u32) as nat);
    lemma_decimal_value((b.len() as u32) as nat);
    assert(t[1] == decimal((a.len() as u32) as nat));
    assert(t[2 + a.len() as int] == d_b);
    assert forall|i: int| 0 <= i < a.len() implies digits_value(#[trigger] t[2 + i]) == a[i] by {
        assert(t[2 + i] == ma[i]);
        lemma_decimal_value(a[i] as nat);
    }
    assert forall|j: int| 0 <= j < b.len() implies digits_value(#[trigger] t[3 + a.len() + j])
        == b[j] by {
        assert(t[3 + a.len() + j] == mb[j]);
        lemma_decimal_value(b[j] as nat);
    }
    let no = seq![78u8, 79u8];
    assert(answer_text(None) =~= no + seq![10u8]);
    assert forall|i: int| 0 <= i < no.len() implies !is_space(#[trigger] no[i]) by {}
    lemma_tokens_token_front(no, seq![10u8]);
    assert(seq![10u8] =~= seq![10u8] + Seq::<u8>::empty());
    lemma_tokens_space_front(10u8, Seq::empty());
    assert(tokens_from(Seq::<u8>::empty(), 0) =~= Seq::<Seq<u8>>::empty());
}

/// Writes one set: its size, a newline, its elements separated by spaces,
/// and a newline.
fn write_set(writer: &mut FastWriter, set: &Vec<u32>)
    ensures
        final(writer)@ == old(writer)@ + set_text(set@),
{
    writer.write_u32(#[verifier::truncate] (set.len() as u32));
    writer.write_newline();
    let ghost start = writer@;
    let mut offset_idx: usize = 0;
    while offset_idx < set.len()
        invariant
            offset_idx <= set@.len(),
            writer@ == start + joined(set@.take(offset_idx as int)),
        decreases set@.len() - offset_idx,
    {
        let ghost before = set@.take(offset_idx as int);
        let ghost after = set@.take(offset_idx + 1);
        assert(after.drop_last() =~= before);
        if offset_idx > 0 {
            writer.write_space();
        }
        writer.write_u32(set[offset_idx]);
        offset_idx += 1;
        if offset_idx == 1 {
            assert(before =~= Seq::<u32>::empty());
            assert(writer@ =~= start + joined(after));
        } else {
            assert(writer@ =~= start + joined(after));
        }
    }
    assert(set@.take(offset_idx as int) =~= set@);
    writer.write_newline();
    assert(writer@ =~= old(writer)@ + set_text(set@));
}

/// Writes the answer for the result of a solver: "NO" when there is no
/// split, else "YES" and the two sets.
pub fn write_answer(writer: &mut FastWriter, answer: &Option<(Vec<u32>, Vec<u32>)>)
    ensures
        final(writer)@ == old(writer)@ + answer_text(answer_view(*answer)),
{
    match answer {
        Some((set_a, set_b)) => {
            let yes = "YES\n";
            proof {
                reveal_strlit("YES\n");
                vstd::string::is_ascii_spec_bytes(yes);
            }
            writer.write_str(yes);
            assert(yes.spec_bytes() =~= seq![89u8, 69u8, 83u8, 10u8]);
            write_set(writer, set_a);
            write_set(writer, set_b);
            assert(writer@ =~= old(writer)@ + answer_text(answer_view(*answer)));
        },
        None => {
            let no = "NO\n";
            proof {
                reveal_strlit("NO\n");
                vstd::string::is_ascii_spec_bytes(no);
            }
            writer.write_str(no);
            assert(no.spec_bytes() =~= seq![78u8, 79u8, 10u8]);
        },
    }
}

} // verus!
