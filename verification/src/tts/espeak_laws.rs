//! What the backends make of the answers of espeak-ng.

use super::espeak::{fed, spaced, trimmed_lines};
use crate::text::edit::lines;
use crate::text::laws::law_line_feeds_end_lines;
use crate::text::{blank, join, lemma_trim, trim};
use vstd::prelude::*;
use vstd::utf8::encode_utf8;

verus! {

/// Every line is given to the program with a line feed behind it, in order.
pub proof fn law_lines_are_fed_in_order(a: Seq<Seq<char>>, line: Seq<char>)
    ensures
        fed(a.push(line)) == fed(a) + encode_utf8(line) + seq![10u8],
        fed(Seq::empty()) == Seq::<u8>::empty(),
{
    assert(a.push(line).drop_last() =~= a);
    assert(a.push(line).last() == line);
}

/// The answer has one line for every line feed, the first one first, without white space
/// around it; an empty line counts.
pub proof fn law_answers_come_line_by_line(line: Seq<char>, rest: Seq<char>)
    requires
        forall|k: int| 0 <= k < line.len() ==> #[trigger] line[k] != '\n' && line[k] != '\r',
    ensures
        trimmed_lines(line + seq!['\n'] + rest) == seq![trim(line)] + trimmed_lines(rest),
        trimmed_lines(Seq::empty()) == Seq::<Seq<char>>::empty(),
{
    law_line_feeds_end_lines(line, rest);
    let all = lines(line + seq!['\n'] + rest);
    assert(trimmed_lines(line + seq!['\n'] + rest) =~= seq![trim(line)] + trimmed_lines(rest)) by {
        assert forall|i: int| 0 < i < all.len() implies all[i] == #[trigger] lines(rest)[i - 1] by {}
    }
    assert(trimmed_lines(Seq::empty()) =~= Seq::<Seq<char>>::empty());
}

/// The texts `v`, each without white space around it.
pub open spec fn trims(v: Seq<Seq<char>>) -> Seq<Seq<char>> {
    Seq::new(v.len(), |i: int| trim(v[i]))
}

/// The clauses that the library gives for a line are joined by spaces, without white space
/// around them, where none is blank; and blank ones in front of them leave nothing.
pub proof fn law_clauses_make_a_line(v: Seq<Seq<char>>, c: Seq<char>)
    requires
        forall|k: int| 0 <= k < v.len() ==> !blank(#[trigger] v[k]),
    ensures
        spaced(v) == join(trims(v), seq![' ']),
        v.len() > 0 ==> spaced(v).len() > 0,
        blank(c) ==> spaced(seq![c]).len() == 0,
    decreases v.len(),
{
    if v.len() > 0 {
        let init = v.drop_last();
        assert forall|k: int| 0 <= k < init.len() implies !blank(#[trigger] init[k]) by {
            assert(init[k] == v[k]);
        }
        law_clauses_make_a_line(init, c);
        assert(!blank(v[v.len() - 1]));
        lemma_trim(v.last());
        assert(trims(v).drop_last() =~= trims(init));
        assert(trims(v).last() == trim(v.last()));
        if init.len() == 0 {
            assert(init =~= Seq::empty());
        }
        assert(spaced(v) =~= join(trims(v), seq![' ']));
    } else {
        assert(spaced(v) =~= join(trims(v), seq![' ']));
    }
    if blank(c) {
        lemma_trim(c);
        let one = seq![c];
        assert(one.drop_last() =~= Seq::empty());
        assert(spaced(one.drop_last()).len() == 0);
        assert(one.last() == c);
    }
}

} // verus!
