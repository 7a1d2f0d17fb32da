//! What is changed in a text before the backend gets it, and in the phonemes that come
//! back.

use super::phonemize::{
    fixed, joined_plurals, loose_plural, model_symbols, normalized, plain, plain_text,
    without_ties, Lang,
};
use super::phonemize_laws::{law_normalize_keeps_words, lemma_plain_spans};
use super::piece_laws::breaks;
use crate::text::edit::replace;
use crate::text::laws::law_replacing_puts_in;
use crate::text::{join, lemma_spans, spans_from, words};
use vstd::prelude::*;

verus! {

// ------------------------------------------------------------------------- normalizing

/// Normalizing changes apostrophes, dashes and spaces, and nothing else: word by word and
/// character by character, every kind of apostrophe becomes the plain one, the short dash
/// becomes a hyphen, and all other characters stay. The words are joined by plain spaces.
pub proof fn law_normalizing_changes_apostrophes_and_dashes(s: Seq<char>, k: int, j: int)
    requires
        0 <= k < words(s).len(),
        0 <= j < words(s)[k].len(),
    ensures
        normalized(s) == join(words(normalized(s)), seq![' ']),
        words(normalized(s)).len() == words(s).len(),
        words(normalized(s))[k].len() == words(s)[k].len(),
        ({
            let c = words(s)[k][j];
            let d = words(normalized(s))[k][j];
            &&& c == '‘' || c == '’' || c == '`' || c == '´' ==> d == '\''
            &&& c == '–' ==> d == '-'
            &&& c != '‘' && c != '’' && c != '`' && c != '´' && c != '–' && c != '\u{a0}'
                ==> d == c
        }),
{
    law_normalize_keeps_words(s);
    lemma_plain_spans(s, 0);
    lemma_spans(s, 0);
    let p = plain_text(s);
    let w = spans_from(s, 0)[k];
    assert(words(p)[k] =~= plain_text(words(s)[k]));
    assert(words(p)[k][j] == plain(words(s)[k][j]));
}

// ----------------------------------------------------------------------------- symbols

/// Whether none of the characters starts something that is changed.
pub open spec fn settled_symbols(s: Seq<char>) -> bool {
    forall|i: int|
        0 <= i < s.len() ==> {
            let c = #[trigger] s[i];
            &&& c != 'k' && c != 'n' && c != ' '
            &&& c != 'ʲ' && c != 'r' && c != 'x' && c != 'ɬ'
            &&& c != '\u{361}' && c != '\u{329}'
        }
}

/// Whether `pat` does not stand in `s` at `i`.
spec fn differs(s: Seq<char>, pat: Seq<char>, i: int) -> bool {
    exists|j: int| 0 <= j < pat.len() && #[trigger] pat[j] != s[i + j]
}

/// A text in which nothing is to be found stays as it is.
proof fn lemma_replace_none(s: Seq<char>, pat: Seq<char>, with: Seq<char>)
    requires
        pat.len() > 0,
        forall|i: int| 0 <= i && i + pat.len() <= s.len() ==> #[trigger] differs(s, pat, i),
    ensures
        replace(s, pat, with) == s,
    decreases s.len(),
{
    if s.len() >= pat.len() {
        assert(!pat.is_prefix_of(s)) by {
            assert(differs(s, pat, 0));
            let j = choose|j: int| 0 <= j < pat.len() && #[trigger] pat[j] != s[0 + j];
            if pat.is_prefix_of(s) {
                assert(s.subrange(0, pat.len() as int)[j] == pat[j]);
            }
        }
        let rest = s.skip(1);
        assert forall|i: int| 0 <= i && i + pat.len() <= rest.len() implies #[trigger] differs(
            rest,
            pat,
            i,
        ) by {
            assert(differs(s, pat, i + 1));
            let j = choose|j: int| 0 <= j < pat.len() && #[trigger] pat[j] != s[i + 1 + j];
            assert(rest[i + j] == s[i + 1 + j]);
        }
        lemma_replace_none(rest, pat, with);
        assert(replace(s, pat, with) =~= s);
    }
}

/// Without the first character of what is looked for, a text stays as it is.
proof fn lemma_replace_lacks(s: Seq<char>, pat: Seq<char>, with: Seq<char>)
    requires
        pat.len() > 0,
        forall|i: int| 0 <= i < s.len() ==> #[trigger] s[i] != pat[0],
    ensures
        replace(s, pat, with) == s,
{
    law_replacing_puts_in(s, pat, with, Seq::empty());
}

/// A text without combining marks stays as it is.
proof fn lemma_no_ties(s: Seq<char>)
    requires
        forall|i: int| 0 <= i < s.len() ==> #[trigger] s[i] != '\u{361}' && s[i] != '\u{329}',
    ensures
        without_ties(s) == s,
    decreases s.len(),
{
    reveal(Seq::filter);
    if s.len() > 0 {
        let init = s.drop_last();
        assert forall|i: int| 0 <= i < init.len() implies #[trigger] init[i] != '\u{361}'
            && init[i] != '\u{329}' by {
            assert(init[i] == s[i]);
        }
        lemma_no_ties(init);
        assert(s[s.len() - 1] != '\u{361}');
        assert(s =~= init.push(s.last()));
    }
}

/// A text without spaces has no loose plural.
proof fn lemma_no_plurals(s: Seq<char>, i: int)
    requires
        0 <= i <= s.len(),
        forall|k: int| i <= k < s.len() ==> !#[trigger] loose_plural(s, k),
    ensures
        joined_plurals(s, i) == s.skip(i),
    decreases s.len() - i,
{
    if i < s.len() {
        lemma_no_plurals(s, i + 1);
        assert(!loose_plural(s, i));
        assert(s.skip(i) =~= seq![s[i]] + s.skip(i + 1));
    } else {
        assert(s.skip(i) =~= Seq::empty());
    }
}

/// Whether `c` does not stand in `s`.
spec fn lacks(s: Seq<char>, c: char) -> bool {
    forall|i: int| 0 <= i < s.len() ==> #[trigger] s[i] != c
}

/// What does not stand in two texts does not stand in both together.
proof fn lemma_lacks_add(a: Seq<char>, b: Seq<char>, c: char)
    requires
        lacks(a, c),
        lacks(b, c),
    ensures
        lacks(a + b, c),
{
}

/// What does not stand in three texts does not stand in all of them together.
proof fn lemma_lacks_add3(a: Seq<char>, m: Seq<char>, b: Seq<char>, c: char)
    requires
        lacks(a, c),
        lacks(m, c),
        lacks(b, c),
    ensures
        lacks(a + m + b, c),
{
    lemma_lacks_add(a, m, c);
    lemma_lacks_add(a + m, b, c);
}

/// The symbols that a settled text lacks.
proof fn lemma_settled(s: Seq<char>)
    requires
        settled_symbols(s),
    ensures
        lacks(s, 'k'),
        lacks(s, 'n'),
        lacks(s, ' '),
        lacks(s, 'ʲ'),
        lacks(s, 'r'),
        lacks(s, 'x'),
        lacks(s, 'ɬ'),
        lacks(s, '\u{361}'),
        lacks(s, '\u{329}'),
{
}

/// A single symbol that is looked for.
proof fn lemma_one(a: Seq<char>, pat: Seq<char>, with: Seq<char>, b: Seq<char>)
    requires
        pat.len() > 0,
        lacks(a, pat[0]),
        lacks(b, pat[0]),
    ensures
        replace(a + pat + b, pat, with) == a + with + b,
{
    law_replacing_puts_in(a, pat, with, b);
    lemma_replace_lacks(b, pat, with);
}

/// A text that lacks the beginning of what is looked for.
proof fn lemma_none(s: Seq<char>, pat: Seq<char>, with: Seq<char>)
    requires
        pat.len() > 0,
        lacks(s, pat[0]),
    ensures
        replace(s, pat, with) == s,
{
    lemma_replace_lacks(s, pat, with);
}

/// The symbols that are replaced one by one.
spec fn four(s: Seq<char>) -> Seq<char> {
    replace(replace(replace(replace(s, "ʲ"@, "j"@), "r"@, "ɹ"@), "x"@, "k"@), "ɬ"@, "l"@)
}

/// What is put in place of a symbol.
spec fn models(c: char) -> char {
    if c == 'ʲ' {
        'j'
    } else if c == 'r' {
        'ɹ'
    } else if c == 'x' {
        'k'
    } else if c == 'ɬ' {
        'l'
    } else {
        c
    }
}

/// The single symbols.
proof fn lemma_letters()
    ensures
        "ʲ"@ == seq!['ʲ'],
        "j"@ == seq!['j'],
        "r"@ == seq!['r'],
        "ɹ"@ == seq!['ɹ'],
        "x"@ == seq!['x'],
        "k"@ == seq!['k'],
        "ɬ"@ == seq!['ɬ'],
        "l"@ == seq!['l'],
{
    reveal_strlit("ʲ");
    reveal_strlit("j");
    reveal_strlit("r");
    reveal_strlit("ɹ");
    reveal_strlit("x");
    reveal_strlit("k");
    reveal_strlit("ɬ");
    reveal_strlit("l");
    assert("ʲ"@ =~= seq!['ʲ']);
    assert("j"@ =~= seq!['j']);
    assert("r"@ =~= seq!['r']);
    assert("ɹ"@ =~= seq!['ɹ']);
    assert("x"@ =~= seq!['x']);
    assert("k"@ =~= seq!['k']);
    assert("ɬ"@ =~= seq!['ɬ']);
    assert("l"@ =~= seq!['l']);
}

/// One step through the symbols: the text `a`, `c`, `b` with `x` replaced by `y`.
proof fn lemma_step(a: Seq<char>, c: char, b: Seq<char>, x: char, y: char)
    requires
        lacks(a, x),
        lacks(b, x),
    ensures
        replace(a + seq![c] + b, seq![x], seq![y]) == a + seq![
            if c == x {
                y
            } else {
                c
            },
        ] + b,
{
    if c == x {
        lemma_one(a, seq![x], seq![y], b);
    } else {
        lemma_lacks_add3(a, seq![c], b, x);
        lemma_none(a + seq![c] + b, seq![x], seq![y]);
    }
}

/// All the symbols, where at most one stands in the text.
proof fn lemma_four(a: Seq<char>, c: char, b: Seq<char>)
    requires
        settled_symbols(a),
        settled_symbols(b),
    ensures
        four(a + seq![c] + b) == a + seq![models(c)] + b,
{
    lemma_letters();
    lemma_settled(a);
    lemma_settled(b);
    lemma_step(a, c, b, 'ʲ', 'j');
    let d = if c == 'ʲ' {
        'j'
    } else {
        c
    };
    lemma_step(a, d, b, 'r', 'ɹ');
    let e = if d == 'r' {
        'ɹ'
    } else {
        d
    };
    lemma_step(a, e, b, 'x', 'k');
    let f = if e == 'x' {
        'k'
    } else {
        e
    };
    lemma_step(a, f, b, 'ɬ', 'l');
}

/// A text without any of the symbols.
proof fn lemma_no_symbols(s: Seq<char>)
    requires
        lacks(s, 'ʲ'),
        lacks(s, 'r'),
        lacks(s, 'x'),
        lacks(s, 'ɬ'),
    ensures
        four(s) == s,
{
    lemma_letters();
    lemma_none(s, "ʲ"@, "j"@);
    lemma_none(s, "r"@, "ɹ"@);
    lemma_none(s, "x"@, "k"@);
    lemma_none(s, "ɬ"@, "l"@);
}

/// A text without `k` does not hold the model's name.
proof fn lemma_symbols_only(s: Seq<char>)
    requires
        lacks(s, 'k'),
    ensures
        model_symbols(s) == four(s),
{
    reveal_strlit("kəkˈoːɹoʊ");
    reveal_strlit("kəkˈɔːɹəʊ");
    lemma_none(s, "kəkˈoːɹoʊ"@, "kˈoʊkəɹoʊ"@);
    lemma_none(s, "kəkˈɔːɹəʊ"@, "kˈəʊkəɹəʊ"@);
}

/// What is left to do once the symbols are the model's: nothing, where there is no
/// combining mark, no `n` and no space.
proof fn lemma_rest(s: Seq<char>, lang: Lang)
    requires
        lacks(model_symbols(s), '\u{361}'),
        lacks(model_symbols(s), '\u{329}'),
        lacks(model_symbols(s), 'n'),
        lacks(model_symbols(s), ' '),
    ensures
        fixed(s, lang) == model_symbols(s),
{
    let t = model_symbols(s);
    lemma_no_ties(t);
    reveal_strlit("nˈaɪnti");
    lemma_none(t, "nˈaɪnti"@, "nˈaɪndi"@);
    assert forall|k: int| 0 <= k < t.len() implies !#[trigger] loose_plural(t, k) by {
        assert(t[k] != ' ');
    }
    lemma_no_plurals(t, 0);
    assert(t.skip(0) =~= t);
}

/// Phonemes that the model knows are left alone.
pub proof fn law_known_phonemes_are_left_alone(s: Seq<char>, lang: Lang)
    requires
        settled_symbols(s),
    ensures
        fixed(s, lang) == s,
{
    lemma_settled(s);
    lemma_symbols_only(s);
    lemma_no_symbols(s);
    lemma_rest(s, lang);
}

/// Each symbol of the backend is replaced by the model's wherever it stands: `ʲ` by `j`,
/// `r` by `ɹ`, `x` by `k` and `ɬ` by `l`.
pub proof fn law_symbols_are_the_models(a: Seq<char>, c: char, b: Seq<char>, lang: Lang)
    requires
        settled_symbols(a),
        settled_symbols(b),
    ensures
        c == 'ʲ' ==> fixed(a + seq![c] + b, lang) == a + seq!['j'] + b,
        c == 'r' ==> fixed(a + seq![c] + b, lang) == a + seq!['ɹ'] + b,
        c == 'x' ==> fixed(a + seq![c] + b, lang) == a + seq!['k'] + b,
        c == 'ɬ' ==> fixed(a + seq![c] + b, lang) == a + seq!['l'] + b,
{
    if c == 'ʲ' || c == 'r' || c == 'x' || c == 'ɬ' {
        lemma_settled(a);
        lemma_settled(b);
        let s = a + seq![c] + b;
        lemma_lacks_add3(a, seq![c], b, 'k');
        lemma_symbols_only(s);
        lemma_four(a, c, b);
        let m = seq![models(c)];
        lemma_lacks_add3(a, m, b, '\u{361}');
        lemma_lacks_add3(a, m, b, '\u{329}');
        lemma_lacks_add3(a, m, b, 'n');
        lemma_lacks_add3(a, m, b, ' ');
        lemma_rest(s, lang);
    }
}

/// A combining mark is filtered out.
proof fn lemma_tie_out(a: Seq<char>, c: char, b: Seq<char>)
    requires
        settled_symbols(a),
        settled_symbols(b),
        c == '\u{361}' || c == '\u{329}',
    ensures
        without_ties(a + seq![c] + b) == a + b,
{
    let keep = |d: char| d != '\u{361}' && d != '\u{329}';
    Seq::filter_distributes_over_add(a + seq![c], b, keep);
    Seq::filter_distributes_over_add(a, seq![c], keep);
    lemma_settled(a);
    lemma_settled(b);
    lemma_no_ties(a);
    lemma_no_ties(b);
    assert(seq![c].filter(keep) =~= Seq::<char>::empty()) by {
        reveal_with_fuel(Seq::filter, 2);
    }
    assert(a + Seq::<char>::empty() =~= a);
}

/// The combining marks that the model does not know are taken out, and what they stood
/// between is joined.
pub proof fn law_combining_marks_are_taken_out(a: Seq<char>, c: char, b: Seq<char>, lang: Lang)
    requires
        settled_symbols(a),
        settled_symbols(b),
        c == '\u{361}' || c == '\u{329}',
    ensures
        fixed(a + seq![c] + b, lang) == a + b,
{
    lemma_settled(a);
    lemma_settled(b);
    let s = a + seq![c] + b;
    lemma_lacks_add3(a, seq![c], b, 'k');
    lemma_symbols_only(s);
    lemma_four(a, c, b);
    lemma_tie_out(a, c, b);
    let t = a + b;
    lemma_lacks_add(a, b, 'n');
    lemma_lacks_add(a, b, ' ');
    reveal_strlit("nˈaɪnti");
    lemma_none(t, "nˈaɪnti"@, "nˈaɪndi"@);
    assert forall|k: int| 0 <= k < t.len() implies !#[trigger] loose_plural(t, k) by {
        assert(t[k] != ' ');
    }
    lemma_no_plurals(t, 0);
    assert(t.skip(0) =~= t);
}

/// A text without `k`, without symbols to replace and without combining marks.
proof fn lemma_only_later(s: Seq<char>)
    requires
        lacks(s, 'k'),
        lacks(s, 'ʲ'),
        lacks(s, 'r'),
        lacks(s, 'x'),
        lacks(s, 'ɬ'),
        lacks(s, '\u{361}'),
        lacks(s, '\u{329}'),
    ensures
        without_ties(model_symbols(s)) == s,
{
    lemma_symbols_only(s);
    lemma_no_symbols(s);
    lemma_no_ties(s);
}

/// [`lemma_only_later`] for a settled text with `m` in it.
proof fn lemma_only_later3(a: Seq<char>, m: Seq<char>, b: Seq<char>)
    requires
        settled_symbols(a),
        settled_symbols(b),
        lacks(m, 'k'),
        lacks(m, 'ʲ'),
        lacks(m, 'r'),
        lacks(m, 'x'),
        lacks(m, 'ɬ'),
        lacks(m, '\u{361}'),
        lacks(m, '\u{329}'),
    ensures
        without_ties(model_symbols(a + m + b)) == a + m + b,
{
    lemma_settled(a);
    lemma_settled(b);
    lemma_lacks_add3(a, m, b, 'k');
    lemma_lacks_add3(a, m, b, 'ʲ');
    lemma_lacks_add3(a, m, b, 'r');
    lemma_lacks_add3(a, m, b, 'x');
    lemma_lacks_add3(a, m, b, 'ɬ');
    lemma_lacks_add3(a, m, b, '\u{361}');
    lemma_lacks_add3(a, m, b, '\u{329}');
    lemma_only_later(a + m + b);
}

/// A text without spaces has its plurals joined already.
proof fn lemma_spaceless(t: Seq<char>)
    requires
        lacks(t, ' '),
    ensures
        joined_plurals(t, 0) == t,
{
    assert forall|k: int| 0 <= k < t.len() implies !#[trigger] loose_plural(t, k) by {
        assert(t[k] != ' ');
    }
    lemma_no_plurals(t, 0);
    assert(t.skip(0) =~= t);
}

/// In English `nˈaɪnti` becomes `nˈaɪndi`, wherever it stands, and in Portuguese it stays.
pub proof fn law_ninety(a: Seq<char>, b: Seq<char>)
    requires
        settled_symbols(a),
        settled_symbols(b),
    ensures
        fixed(a + "nˈaɪnti"@ + b, Lang::EnUs) == a + "nˈaɪndi"@ + b,
        fixed(a + "nˈaɪnti"@ + b, Lang::PtBr) == a + "nˈaɪnti"@ + b,
{
    reveal_strlit("nˈaɪnti");
    reveal_strlit("nˈaɪndi");
    lemma_settled(a);
    lemma_settled(b);
    let m = "nˈaɪnti"@;
    let w = "nˈaɪndi"@;
    lemma_only_later3(a, m, b);
    lemma_one(a, m, w, b);
    lemma_lacks_add3(a, m, b, ' ');
    lemma_lacks_add3(a, w, b, ' ');
    lemma_spaceless(a + m + b);
    lemma_spaceless(a + w + b);
}

/// The only loose plural of a text is joined.
proof fn lemma_join_at(s: Seq<char>, n: int)
    requires
        0 <= n < s.len(),
        loose_plural(s, n),
        forall|k: int| 0 <= k < s.len() && k != n ==> #[trigger] s[k] != ' ',
    ensures
        joined_plurals(s, 0) == s.take(n) + s.skip(n + 1),
{
    assert forall|k: int| n + 1 <= k < s.len() implies !#[trigger] loose_plural(s, k) by {
        assert(s[k] != ' ');
    }
    lemma_no_plurals(s, n + 1);
    lemma_join_from(s, n, 0);
    assert(s.subrange(0, n) =~= s.take(n));
}

/// What stands before the loose plural stays.
proof fn lemma_join_from(s: Seq<char>, n: int, i: int)
    requires
        0 <= i <= n < s.len(),
        forall|k: int| 0 <= k < n ==> #[trigger] s[k] != ' ',
    ensures
        joined_plurals(s, i) == s.subrange(i, n) + joined_plurals(s, n),
    decreases n - i,
{
    if i < n {
        assert(s[i] != ' ');
        lemma_join_from(s, n, i + 1);
        assert(s.subrange(i, n) =~= seq![s[i]] + s.subrange(i + 1, n));
        assert(joined_plurals(s, i) =~= s.subrange(i, n) + joined_plurals(s, n));
    } else {
        assert(s.subrange(i, n) + joined_plurals(s, n) =~= joined_plurals(s, n));
    }
}

/// Text with a ` z` in it, of which nothing else is changed.
proof fn lemma_plural_only(a: Seq<char>, m: Seq<char>, b: Seq<char>, lang: Lang)
    requires
        settled_symbols(a),
        settled_symbols(b),
        lacks(m, 'k'),
        lacks(m, 'n'),
        lacks(m, 'ʲ'),
        lacks(m, 'r'),
        lacks(m, 'x'),
        lacks(m, 'ɬ'),
        lacks(m, '\u{361}'),
        lacks(m, '\u{329}'),
    ensures
        fixed(a + m + b, lang) == joined_plurals(a + m + b, 0),
{
    lemma_settled(a);
    lemma_settled(b);
    lemma_only_later3(a, m, b);
    lemma_lacks_add3(a, m, b, 'n');
    reveal_strlit("nˈaɪnti");
    lemma_none(a + m + b, "nˈaɪnti"@, "nˈaɪndi"@);
}

/// A ` z` at the end of the phonemes is joined to the word before it.
pub proof fn law_a_last_plural_is_joined(a: Seq<char>, lang: Lang)
    requires
        settled_symbols(a),
    ensures
        fixed(a + seq![' ', 'z'], lang) == a + seq!['z'],
{
    let m = seq![' ', 'z'];
    let none = Seq::<char>::empty();
    lemma_plural_only(a, m, none, lang);
    assert(a + m + none =~= a + m);
    let s = a + m;
    let n = a.len() as int;
    lemma_settled(a);
    assert forall|k: int| 0 <= k < s.len() && k != n implies #[trigger] s[k] != ' ' by {
        if k < n {
            assert(s[k] == a[k]);
        }
    }
    assert(loose_plural(s, n));
    lemma_join_at(s, n);
    assert(s.take(n) + s.skip(n + 1) =~= a + seq!['z']);
}

/// A ` z` before punctuation is joined to the word before it. Before anything else that is
/// no space it begins a word, and stays.
pub proof fn law_loose_plurals_are_joined(a: Seq<char>, c: char, b: Seq<char>, lang: Lang)
    requires
        settled_symbols(a),
        settled_symbols(b),
        settled_symbols(seq![c]),
    ensures
        breaks(c) ==> fixed(a + seq![' ', 'z', c] + b, lang) == a + seq!['z', c] + b,
        !breaks(c) ==> fixed(a + seq![' ', 'z', c] + b, lang) == a + seq![' ', 'z', c] + b,
{
    let m = seq![' ', 'z', c];
    assert(seq![c][0] == c);
    lemma_plural_only(a, m, b, lang);
    let t = a + m + b;
    let n = a.len() as int;
    lemma_settled(a);
    lemma_settled(b);
    assert(t[n] == ' ' && t[n + 1] == 'z' && t[n + 2] == c);
    assert forall|k: int| 0 <= k < t.len() && k != n implies #[trigger] t[k] != ' ' by {
        if k < n {
            assert(t[k] == a[k]);
        } else if k > n + 2 {
            assert(t[k] == b[k - n - 3]);
        }
    }
    if breaks(c) {
        assert(loose_plural(t, n));
        lemma_join_at(t, n);
        assert(t.take(n) + t.skip(n + 1) =~= a + seq!['z', c] + b);
    } else {
        assert forall|k: int| 0 <= k < t.len() implies !#[trigger] loose_plural(t, k) by {
            if k != n {
                assert(t[k] != ' ');
            }
        }
        lemma_no_plurals(t, 0);
        assert(t.skip(0) =~= t);
    }
}

/// What is put in for the model's name does not hold it in the other accent.
proof fn lemma_other_accent(a: Seq<char>, b: Seq<char>)
    requires
        settled_symbols(a),
        settled_symbols(b),
    ensures
        replace(a + "kˈoʊkəɹoʊ"@ + b, "kəkˈɔːɹəʊ"@, "kˈəʊkəɹəʊ"@) == a + "kˈoʊkəɹoʊ"@ + b,
{
    reveal_strlit("kˈoʊkəɹoʊ");
    reveal_strlit("kəkˈɔːɹəʊ");
    lemma_settled(a);
    lemma_settled(b);
    let u = "kˈoʊkəɹoʊ"@;
    let q = "kəkˈɔːɹəʊ"@;
    let t = a + u + b;
    let n = a.len() as int;
    assert forall|i: int| 0 <= i && i + q.len() <= t.len() implies #[trigger] differs(t, q, i) by {
        if i == n {
            assert(q[1] != t[i + 1]);
        } else if i == n + 4 {
            assert(q[2] != t[i + 2]);
        } else {
            if i < n {
                assert(t[i] == a[i]);
            } else if i >= n + 9 {
                assert(t[i] == b[i - n - 9]);
            } else {
                assert(t[i] == u[i - n]);
            }
            assert(q[0] != t[i + 0]);
        }
    }
    lemma_replace_none(t, q, "kˈəʊkəɹəʊ"@);
}

/// The model's name in the one accent does not hold it in the other.
proof fn lemma_first_accent(a: Seq<char>, b: Seq<char>)
    requires
        settled_symbols(a),
        settled_symbols(b),
    ensures
        replace(a + "kəkˈɔːɹəʊ"@ + b, "kəkˈoːɹoʊ"@, "kˈoʊkəɹoʊ"@) == a + "kəkˈɔːɹəʊ"@ + b,
{
    reveal_strlit("kəkˈoːɹoʊ");
    reveal_strlit("kəkˈɔːɹəʊ");
    lemma_settled(a);
    lemma_settled(b);
    let p = "kəkˈoːɹoʊ"@;
    let q = "kəkˈɔːɹəʊ"@;
    let t = a + q + b;
    let n = a.len() as int;
    assert forall|i: int| 0 <= i && i + p.len() <= t.len() implies #[trigger] differs(t, p, i) by {
        if i == n {
            assert(p[4] != t[i + 4]);
        } else if i == n + 2 {
            assert(p[1] != t[i + 1]);
        } else {
            if i < n {
                assert(t[i] == a[i]);
            } else if i >= n + 9 {
                assert(t[i] == b[i - n - 9]);
            } else {
                assert(t[i] == q[i - n]);
            }
            assert(p[0] != t[i + 0]);
        }
    }
    lemma_replace_none(t, p, "kˈoʊkəɹoʊ"@);
}

/// A text that the symbols leave as it is, with the model's name in it.
proof fn lemma_name_rest(a: Seq<char>, m: Seq<char>, b: Seq<char>)
    requires
        settled_symbols(a),
        settled_symbols(b),
        lacks(m, 'ʲ'),
        lacks(m, 'r'),
        lacks(m, 'x'),
        lacks(m, 'ɬ'),
        lacks(m, '\u{361}'),
        lacks(m, '\u{329}'),
        lacks(m, 'n'),
        lacks(m, ' '),
    ensures
        four(a + m + b) == a + m + b,
        lacks(a + m + b, '\u{361}'),
        lacks(a + m + b, '\u{329}'),
        lacks(a + m + b, 'n'),
        lacks(a + m + b, ' '),
{
    lemma_settled(a);
    lemma_settled(b);
    lemma_lacks_add3(a, m, b, 'ʲ');
    lemma_lacks_add3(a, m, b, 'r');
    lemma_lacks_add3(a, m, b, 'x');
    lemma_lacks_add3(a, m, b, 'ɬ');
    lemma_lacks_add3(a, m, b, '\u{361}');
    lemma_lacks_add3(a, m, b, '\u{329}');
    lemma_lacks_add3(a, m, b, 'n');
    lemma_lacks_add3(a, m, b, ' ');
    lemma_no_symbols(a + m + b);
}

/// The name of the model is said as the model was taught it, in both accents.
pub proof fn law_the_models_name(a: Seq<char>, b: Seq<char>, lang: Lang)
    requires
        settled_symbols(a),
        settled_symbols(b),
    ensures
        fixed(a + "kəkˈoːɹoʊ"@ + b, lang) == a + "kˈoʊkəɹoʊ"@ + b,
        fixed(a + "kəkˈɔːɹəʊ"@ + b, lang) == a + "kˈəʊkəɹəʊ"@ + b,
{
    lemma_settled(a);
    lemma_settled(b);
    assert("kəkˈoːɹoʊ"@[0] == 'k' && "kəkˈoːɹoʊ"@.len() > 0) by {
        reveal_strlit("kəkˈoːɹoʊ");
    }
    assert("kəkˈɔːɹəʊ"@[0] == 'k' && "kəkˈɔːɹəʊ"@.len() > 0) by {
        reveal_strlit("kəkˈɔːɹəʊ");
    }
    let u = "kˈoʊkəɹoʊ"@;
    let v = "kˈəʊkəɹəʊ"@;
    lemma_one(a, "kəkˈoːɹoʊ"@, u, b);
    lemma_other_accent(a, b);
    assert(lacks(u, 'ʲ') && lacks(u, 'r') && lacks(u, 'x') && lacks(u, 'ɬ') && lacks(u, '\u{361}')
        && lacks(u, '\u{329}') && lacks(u, 'n') && lacks(u, ' ')) by {
        reveal_strlit("kˈoʊkəɹoʊ");
    }
    lemma_name_rest(a, u, b);
    assert(model_symbols(a + "kəkˈoːɹoʊ"@ + b) == a + u + b);
    lemma_rest(a + "kəkˈoːɹoʊ"@ + b, lang);
    lemma_first_accent(a, b);
    lemma_one(a, "kəkˈɔːɹəʊ"@, v, b);
    assert(lacks(v, 'ʲ') && lacks(v, 'r') && lacks(v, 'x') && lacks(v, 'ɬ') && lacks(v, '\u{361}')
        && lacks(v, '\u{329}') && lacks(v, 'n') && lacks(v, ' ')) by {
        reveal_strlit("kˈəʊkəɹəʊ");
    }
    lemma_name_rest(a, v, b);
    assert(model_symbols(a + "kəkˈɔːɹəʊ"@ + b) == a + v + b);
    lemma_rest(a + "kəkˈɔːɹəʊ"@ + b, lang);
}

} // verus!
