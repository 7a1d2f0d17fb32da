//! Text to the phonemes that the model expects.
//!
//! A backend turns lines of text into lines of phonemes, and drops punctuation on the
//! way. The model wants the punctuation: it sets the pauses. So each word is broken
//! into pieces of text and pieces of punctuation, the pieces of text are phonemized,
//! and the punctuation is put back in its place.
//!
//! A first pass goes by clause, the pieces of text between two pieces of punctuation,
//! so that the backend sees the context. Where the backend gives another number of
//! words than the clause has pieces, a second pass takes that clause piece by piece.

use crate::text::edit::{ascii_lowercase, lowercase, replace, replace_all};
use crate::text::{
    begins_with, chars_of, collapse, collapse_spaces, join, join_strings, string_of, strs,
};
use crate::tts::clauses::{
    clauses, first_lines, piece_rows, second_lines, sounds, voiced_words, Script,
};
use vstd::prelude::*;

verus! {

/// A language that can be read aloud.
#[derive(Debug, Clone, Copy, PartialEq, Eq, Hash, Structural)]
pub enum Lang {
    EnUs,
    PtBr,
}

/// The code of a language.
pub open spec fn lang_code(lang: Lang) -> Seq<char> {
    match lang {
        Lang::EnUs => "en-us"@,
        Lang::PtBr => "pt-br"@,
    }
}

impl Lang {
    /// The name of the backend's voice for the language.
    pub fn espeak_voice(self) -> (r: &'static str)
        ensures
            r@ == lang_code(self),
    {
        match self {
            Lang::EnUs => "en-us",
            Lang::PtBr => "pt-br",
        }
    }

    /// The language's code.
    pub fn code(self) -> (r: &'static str)
        ensures
            r@ == lang_code(self),
    {
        match self {
            Lang::EnUs => "en-us",
            Lang::PtBr => "pt-br",
        }
    }

    /// The language of a book: Portuguese where the book's language tag begins with
    /// `pt`, in upper or lower case, and English otherwise.
    pub fn from_book_lang(bcp47: &str) -> (r: Lang)
        ensures
            r == book_lang_of(bcp47@),
    {
        let tag: Vec<char> = ascii_lowercase(chars_of(bcp47).as_slice());
        if begins_with(tag.as_slice(), chars_of("pt").as_slice()) {
            Lang::PtBr
        } else {
            Lang::EnUs
        }
    }

    /// The language of a voice, by the first letter of its name.
    pub fn from_voice(voice: &str) -> (r: Option<Lang>)
        ensures
            r == voice_lang(voice@),
    {
        let name: Vec<char> = chars_of(voice);
        if name.len() == 0 {
            return None;
        }
        let first: char = name[0];
        if first == 'a' || first == 'b' {
            Some(Lang::EnUs)
        } else if first == 'p' {
            Some(Lang::PtBr)
        } else {
            None
        }
    }
}

/// The language of a book with this language tag.
pub open spec fn book_lang_of(tag: Seq<char>) -> Lang {
    if "pt"@.is_prefix_of(lowercase(tag)) {
        Lang::PtBr
    } else {
        Lang::EnUs
    }
}

/// The language of a voice: `a` and `b` begin the English names, `p` the Portuguese.
pub open spec fn voice_lang(voice: Seq<char>) -> Option<Lang> {
    if voice.len() == 0 {
        None
    } else if voice[0] == 'a' || voice[0] == 'b' {
        Some(Lang::EnUs)
    } else if voice[0] == 'p' {
        Some(Lang::PtBr)
    } else {
        None
    }
}

// ------------------------------------------------------------------------ normalizing

/// What stands for `c` in normalized text: apostrophes, dashes and spaces of other
/// kinds become the plain ones.
pub open spec fn plain(c: char) -> char {
    if c == '‘' || c == '’' || c == '`' || c == '´' {
        '\''
    } else if c == '–' {
        '-'
    } else if c == '\u{a0}' {
        ' '
    } else {
        c
    }
}

/// `s` with every character plain.
pub open spec fn plain_text(s: Seq<char>) -> Seq<char> {
    Seq::new(s.len(), |i: int| plain(s[i]))
}

/// The text that the backend gets to see.
pub open spec fn normalized(s: Seq<char>) -> Seq<char> {
    collapse(plain_text(s))
}

/// Makes `c` plain.
fn plain_char(c: char) -> (r: char)
    ensures
        r == plain(c),
{
    if c == '‘' || c == '’' || c == '`' || c == '´' {
        '\''
    } else if c == '–' {
        '-'
    } else if c == '\u{a0}' {
        ' '
    } else {
        c
    }
}

/// Normalizes `text`.
pub(crate) fn normalize_chars(text: &str) -> (r: Vec<char>)
    ensures
        r@ == normalized(text@),
{
    let cs: Vec<char> = chars_of(text);
    let mut out: Vec<char> = Vec::new();
    let mut i: usize = 0;
    while i < cs.len()
        invariant
            0 <= i <= cs@.len(),
            out@ =~= plain_text(cs@).take(i as int),
        decreases cs@.len() - i,
    {
        out.push(plain_char(cs[i]));
        i = i + 1;
    }
    assert(out@ =~= plain_text(cs@));
    collapse_spaces(out.as_slice())
}

/// Normalizes `text`: plain apostrophes, dashes and spaces, and one space between
/// words.
pub fn normalize(text: &str) -> (r: String)
    ensures
        r@ == normalized(text@),
{
    string_of(normalize_chars(text).as_slice())
}

// ------------------------------------------------------------------------------ pieces

/// The punctuation that the model knows.
pub open spec fn is_punct(c: char) -> bool {
    ||| c == ';'
    ||| c == ':'
    ||| c == ','
    ||| c == '.'
    ||| c == '!'
    ||| c == '?'
    ||| c == '¡'
    ||| c == '¿'
    ||| c == '—'
    ||| c == '…'
    ||| c == '"'
    ||| c == '«'
    ||| c == '»'
    ||| c == '“'
    ||| c == '”'
}

/// Decides [`is_punct`].
pub fn char_is_punct(c: char) -> (r: bool)
    ensures
        r == is_punct(c),
{
    c == ';' || c == ':' || c == ',' || c == '.' || c == '!' || c == '?' || c == '¡' || c == '¿'
        || c == '—' || c == '…' || c == '"' || c == '«' || c == '»' || c == '“' || c == '”'
}

/// Where the piece that starts at `i` ends: with the last character of its kind.
pub open spec fn piece_end(w: Seq<char>, i: int) -> int
    decreases w.len() - i,
{
    if 0 <= i && i + 1 < w.len() && is_punct(w[i + 1]) == is_punct(w[i]) {
        piece_end(w, i + 1)
    } else {
        i + 1
    }
}

/// A piece ends after it starts and within the word.
pub proof fn lemma_piece_end(w: Seq<char>, i: int)
    requires
        0 <= i < w.len(),
    ensures
        i < piece_end(w, i) <= w.len(),
        forall|k: int| i <= k < piece_end(w, i) ==> is_punct(#[trigger] w[k]) == is_punct(w[i]),
    decreases w.len() - i,
{
    if i + 1 < w.len() && is_punct(w[i + 1]) == is_punct(w[i]) {
        lemma_piece_end(w, i + 1);
    }
}

/// The pieces of `w` from `i` on, each with whether it is punctuation.
pub open spec fn pieces_from(w: Seq<char>, i: int) -> Seq<(Seq<char>, bool)>
    decreases w.len() - i,
{
    if 0 <= i < w.len() {
        proof {
            lemma_piece_end(w, i);
        }
        seq![(w.subrange(i, piece_end(w, i)), is_punct(w[i]))] + pieces_from(w, piece_end(w, i))
    } else {
        Seq::empty()
    }
}

/// The pieces of the word `w`: the longest runs of punctuation and of text.
pub open spec fn pieces(w: Seq<char>) -> Seq<(Seq<char>, bool)> {
    pieces_from(w, 0)
}

/// The contents of a list of pieces.
pub open spec fn pieces_view(v: Seq<(String, bool)>) -> Seq<(Seq<char>, bool)> {
    Seq::new(v.len(), |i: int| (v[i].0@, v[i].1))
}

/// Appending a piece appends its contents.
proof fn lemma_pieces_push(v: Seq<(String, bool)>, x: (String, bool))
    ensures
        pieces_view(v.push(x)) == pieces_view(v).push((x.0@, x.1)),
{
    assert(pieces_view(v.push(x)) =~= pieces_view(v).push((x.0@, x.1)));
}

/// Breaks the word `w` into its pieces.
pub(crate) fn break_word(w: &[char]) -> (r: Vec<(String, bool)>)
    ensures
        pieces_view(r@) == pieces(w@),
{
    let mut out: Vec<(String, bool)> = Vec::new();
    let mut i: usize = 0;
    while i < w.len()
        invariant
            0 <= i <= w@.len(),
            pieces_view(out@) + pieces_from(w@, i as int) =~= pieces(w@),
        decreases w@.len() - i,
    {
        let p: bool = char_is_punct(w[i]);
        let mut e: usize = i + 1;
        while e < w.len() && char_is_punct(w[e]) == p
            invariant
                0 <= i < e <= w@.len(),
                p == is_punct(w@[i as int]),
                is_punct(w@[e - 1]) == p,
                piece_end(w@, e - 1) == piece_end(w@, i as int),
            decreases w@.len() - e,
        {
            e = e + 1;
        }
        let piece: (String, bool) = (string_of(&w[i..e]), p);
        proof {
            lemma_pieces_push(out@, piece);
        }
        out.push(piece);
        i = e;
    }
    out
}

/// Breaks a word into its pieces, each with whether it is punctuation.
pub fn word_pieces(word: &str) -> (r: Vec<(String, bool)>)
    ensures
        pieces_view(r@) == pieces(word@),
{
    break_word(chars_of(word).as_slice())
}

// ------------------------------------------------------------------------------ fixups

/// `s` without the combining marks that the model does not know.
pub open spec fn without_ties(s: Seq<char>) -> Seq<char> {
    s.filter(|c: char| c != '\u{361}' && c != '\u{329}')
}

/// Whether a ` z` at `i` ends a word: punctuation, a space or nothing comes after it.
pub open spec fn loose_plural(s: Seq<char>, i: int) -> bool {
    &&& 0 <= i && i + 1 < s.len()
    &&& s[i] == ' '
    &&& s[i + 1] == 'z'
    &&& i + 2 < s.len() ==> is_punct(s[i + 2]) || s[i + 2] == ' '
}

/// `s` from `i` on, with every loose plural joined to the word before it.
pub open spec fn joined_plurals(s: Seq<char>, i: int) -> Seq<char>
    decreases s.len() - i,
{
    if 0 <= i < s.len() {
        if loose_plural(s, i) {
            joined_plurals(s, i + 1)
        } else {
            seq![s[i]] + joined_plurals(s, i + 1)
        }
    } else {
        Seq::empty()
    }
}

/// The symbols of the backend replaced by the model's.
pub open spec fn model_symbols(s: Seq<char>) -> Seq<char> {
    let a = replace(s, "kəkˈoːɹoʊ"@, "kˈoʊkəɹoʊ"@);
    let b = replace(a, "kəkˈɔːɹəʊ"@, "kˈəʊkəɹəʊ"@);
    let c = replace(b, "ʲ"@, "j"@);
    let d = replace(c, "r"@, "ɹ"@);
    let e = replace(d, "x"@, "k"@);
    replace(e, "ɬ"@, "l"@)
}

/// What the model is given for the phonemes `s` of the backend.
pub open spec fn fixed(s: Seq<char>, lang: Lang) -> Seq<char> {
    let a = without_ties(model_symbols(s));
    let b = if lang == Lang::EnUs {
        replace(a, "nˈaɪnti"@, "nˈaɪndi"@)
    } else {
        a
    };
    joined_plurals(b, 0)
}

/// Replaces the symbols of the backend by the model's.
fn to_model_symbols(s: &[char]) -> (r: Vec<char>)
    ensures
        r@ == model_symbols(s@),
{
    proof {
        reveal_strlit("kəkˈoːɹoʊ");
        reveal_strlit("kəkˈɔːɹəʊ");
        reveal_strlit("ʲ");
        reveal_strlit("r");
        reveal_strlit("x");
        reveal_strlit("ɬ");
    }
    let a: Vec<char> = replace_all(
        s,
        chars_of("kəkˈoːɹoʊ").as_slice(),
        chars_of("kˈoʊkəɹoʊ").as_slice(),
    );
    let b: Vec<char> = replace_all(
        a.as_slice(),
        chars_of("kəkˈɔːɹəʊ").as_slice(),
        chars_of("kˈəʊkəɹəʊ").as_slice(),
    );
    let c: Vec<char> = replace_all(b.as_slice(), chars_of("ʲ").as_slice(), chars_of("j").as_slice());
    let d: Vec<char> = replace_all(c.as_slice(), chars_of("r").as_slice(), chars_of("ɹ").as_slice());
    let e: Vec<char> = replace_all(d.as_slice(), chars_of("x").as_slice(), chars_of("k").as_slice());
    replace_all(e.as_slice(), chars_of("ɬ").as_slice(), chars_of("l").as_slice())
}

/// Drops the combining marks that the model does not know.
fn drop_ties(s: &[char]) -> (r: Vec<char>)
    ensures
        r@ == without_ties(s@),
{
    let mut out: Vec<char> = Vec::new();
    let mut i: usize = 0;
    while i < s.len()
        invariant
            0 <= i <= s@.len(),
            out@ =~= without_ties(s@.take(i as int)),
        decreases s@.len() - i,
    {
        proof {
            reveal(Seq::filter);
            assert(s@.take(i + 1).drop_last() =~= s@.take(i as int));
        }
        let c: char = s[i];
        if c != '\u{361}' && c != '\u{329}' {
            out.push(c);
        }
        i = i + 1;
    }
    assert(s@.take(i as int) =~= s@);
    out
}

/// Joins every loose plural to the word before it.
fn join_plurals(s: &[char]) -> (r: Vec<char>)
    ensures
        r@ == joined_plurals(s@, 0),
{
    let mut out: Vec<char> = Vec::new();
    let mut i: usize = 0;
    while i < s.len()
        invariant
            0 <= i <= s@.len(),
            out@ + joined_plurals(s@, i as int) =~= joined_plurals(s@, 0),
        decreases s@.len() - i,
    {
        let loose: bool = s[i] == ' ' && s.len() - i > 1 && s[i + 1] == 'z' && (s.len() - i == 2
            || char_is_punct(s[i + 2]) || s[i + 2] == ' ');
        if !loose {
            out.push(s[i]);
        }
        i = i + 1;
    }
    out
}

/// Makes phonemes of the backend into what the model expects.
pub(crate) fn fix(s: &[char], lang: Lang) -> (r: Vec<char>)
    ensures
        r@ == fixed(s@, lang),
{
    let a: Vec<char> = drop_ties(to_model_symbols(s).as_slice());
    if lang == Lang::EnUs {
        proof {
            reveal_strlit("nˈaɪnti");
        }
        let b: Vec<char> = replace_all(
            a.as_slice(),
            chars_of("nˈaɪnti").as_slice(),
            chars_of("nˈaɪndi").as_slice(),
        );
        join_plurals(b.as_slice())
    } else {
        join_plurals(a.as_slice())
    }
}

/// Makes phonemes of the backend into what the model expects: its symbols, no tie
/// marks, its own way with `ninety` in English, and no space before a plural `z`.
pub fn kokoro_fixups(ps: &str, lang: Lang) -> (r: String)
    ensures
        r@ == fixed(ps@, lang),
{
    string_of(fix(chars_of(ps).as_slice(), lang).as_slice())
}

// ------------------------------------------------------------------------- phonemizing

/// A text in phonemes.
#[derive(Debug, Clone, PartialEq, Eq)]
pub struct Phonemized {
    /// The phonemes, the punctuation and the spaces.
    pub phonemes: String,
    /// The phonemes and the punctuation of each word of the text. An entry may hold
    /// spaces. There is none where the backend gave another number of lines than it
    /// was asked for.
    pub per_word: Option<Vec<String>>,
}

/// The contents of a [`Phonemized`].
#[verifier::ext_equal]
pub struct PhonemizedView {
    pub phonemes: Seq<char>,
    pub per_word: Option<Seq<Seq<char>>>,
}

impl View for Phonemized {
    type V = PhonemizedView;

    open spec fn view(&self) -> PhonemizedView {
        PhonemizedView {
            phonemes: self.phonemes@,
            per_word: match self.per_word {
                Some(v) => Some(strs(v@)),
                None => None,
            },
        }
    }
}

/// A text whose words have the phonemes `per_word`.
pub open spec fn aligned_view(per_word: Seq<Seq<char>>) -> PhonemizedView {
    PhonemizedView { phonemes: join(per_word, seq![' ']), per_word: Some(per_word) }
}

/// A text of which only the lines of the backend are known.
pub open spec fn unaligned_view(lines: Seq<Seq<char>>, lang: Lang) -> PhonemizedView {
    PhonemizedView { phonemes: fixed(join(lines, seq![' ']), lang), per_word: None }
}

/// `text` in phonemes, where the first pass gave `first` and the second one `second`.
/// A pass that was asked for nothing is not run, and what it gave plays no part.
pub open spec fn phonemized(
    text: Seq<char>,
    lang: Lang,
    first: Seq<Seq<char>>,
    second: Seq<Seq<char>>,
) -> PhonemizedView {
    let ws = piece_rows(normalized(text));
    let cl = clauses(ws);
    let again = second_lines(cl, first);
    if first.len() != cl.len() {
        unaligned_view(first, lang)
    } else if second.len() != again.len() {
        unaligned_view(second, lang)
    } else {
        aligned_view(voiced_words(ws, sounds(cl, first, second), lang))
    }
}

/// What the backend is asked for in the second pass.
pub open spec fn asked_again(text: Seq<char>, first: Seq<Seq<char>>) -> Seq<Seq<char>> {
    let cl = clauses(piece_rows(normalized(text)));
    if first.len() == cl.len() {
        second_lines(cl, first)
    } else {
        Seq::empty()
    }
}

/// What the backend is asked for in the first pass.
pub open spec fn asked(text: Seq<char>) -> Seq<Seq<char>> {
    first_lines(clauses(piece_rows(normalized(text))))
}

/// The contents of a backend's answer.
pub open spec fn answer(r: Result<Vec<String>, String>) -> Result<Seq<Seq<char>>, Seq<char>> {
    match r {
        Ok(v) => Ok(strs(v@)),
        Err(e) => Err(e@),
    }
}

/// The contents of what phonemizing gives.
pub open spec fn result_view(r: Result<Phonemized, String>) -> Result<PhonemizedView, Seq<char>> {
    match r {
        Ok(p) => Ok(p@),
        Err(e) => Err(e@),
    }
}

/// What follows where the first pass was answered with `out` and left the backend as
/// `mid`: its error comes back; a text with nothing to ask again is assembled, and
/// the backend left alone; otherwise the second pass is run.
pub open spec fn outcome_after<P: Phonemizer>(
    mid: P,
    text: Seq<char>,
    lang: Lang,
    out: Result<Seq<Seq<char>>, Seq<char>>,
    r: Result<PhonemizedView, Seq<char>>,
    after: P,
) -> bool {
    match out {
        Err(e) => r == Err::<PhonemizedView, Seq<char>>(e) && after == mid,
        Ok(first) => {
            let again = asked_again(text, first);
            if again.len() == 0 {
                &&& r == Ok::<PhonemizedView, Seq<char>>(
                    phonemized(text, lang, first, Seq::empty()),
                )
                &&& after == mid
            } else {
                exists|out2: Result<Seq<Seq<char>>, Seq<char>>|
                    #[trigger] mid.answers(again, lang, out2, &after) && match out2 {
                        Err(e) => r == Err::<PhonemizedView, Seq<char>>(e),
                        Ok(second) => r == Ok::<PhonemizedView, Seq<char>>(
                            phonemized(text, lang, first, second),
                        ),
                    }
            }
        },
    }
}

/// What phonemizing `text` with the backend `before` may give, and how it may leave
/// the backend. A text with nothing to ask needs no backend.
pub open spec fn outcome<P: Phonemizer>(
    before: P,
    text: Seq<char>,
    lang: Lang,
    r: Result<PhonemizedView, Seq<char>>,
    after: P,
) -> bool {
    if asked(text).len() == 0 {
        &&& r == Ok::<PhonemizedView, Seq<char>>(
            phonemized(text, lang, Seq::empty(), Seq::empty()),
        )
        &&& after == before
    } else {
        exists|mid: P, out: Result<Seq<Seq<char>>, Seq<char>>| #[trigger]
            before.answers(asked(text), lang, out, &mid) && outcome_after(
                mid,
                text,
                lang,
                out,
                r,
                after,
            )
    }
}

/// The phonemes of a text of which a backend knows no alignment.
fn unaligned(lines: &[String], lang: Lang) -> (r: Phonemized)
    ensures
        r@ == unaligned_view(strs(lines@), lang),
{
    let all: Vec<char> = join_strings(lines);
    Phonemized { phonemes: string_of(fix(all.as_slice(), lang).as_slice()), per_word: None }
}

/// `text` in phonemes, from what the two passes gave.
pub fn assemble(text: &str, lang: Lang, first: &[String], second: &[String]) -> (r: Phonemized)
    ensures
        r@ == phonemized(text@, lang, strs(first@), strs(second@)),
{
    let script: Script = Script::new(text);
    let inputs: Vec<String> = script.first_inputs();
    assert(strs(inputs@).len() == inputs@.len());
    if first.len() != inputs.len() {
        return unaligned(first, lang);
    }
    let again: Vec<String> = script.second_inputs(first);
    assert(strs(again@).len() == again@.len());
    if second.len() != again.len() {
        return unaligned(second, lang);
    }
    let per_word: Vec<String> = script.speak(first, second, lang);
    let all: Vec<char> = join_strings(per_word.as_slice());
    Phonemized { phonemes: string_of(all.as_slice()), per_word: Some(per_word) }
}

/// What turns lines of text into lines of phonemes.
pub trait Phonemizer: Send {
    /// Whether the backend, asked for the lines `inputs`, may answer `out` and be left
    /// as `after`: anything, unless a backend says more of itself.
    open spec fn answers(
        &self,
        inputs: Seq<Seq<char>>,
        lang: Lang,
        out: Result<Seq<Seq<char>>, Seq<char>>,
        after: &Self,
    ) -> bool {
        true
    }

    /// One line of phonemes for each line of text, in the same order.
    fn lines(&mut self, inputs: &[String], lang: Lang) -> (r: Result<Vec<String>, String>)
        ensures
            old(self).answers(strs(inputs@), lang, answer(r), final(self)),
    ;
}

/// Turns `text` into phonemes with the backend `be`.
pub fn phonemize_words<P: Phonemizer>(be: &mut P, text: &str, lang: Lang) -> (r: Result<
    Phonemized,
    String,
>)
    ensures
        outcome(*old(be), text@, lang, result_view(r), *final(be)),
{
    let script: Script = Script::new(text);
    let inputs: Vec<String> = script.first_inputs();
    assert(strs(inputs@).len() == inputs@.len());
    let mut first: Vec<String> = Vec::new();
    let mut second: Vec<String> = Vec::new();
    assert(strs(first@) =~= Seq::empty());
    assert(strs(second@) =~= Seq::empty());
    if inputs.len() > 0 {
        match be.lines(inputs.as_slice(), lang) {
            Ok(out) => {
                first = out;
            },
            Err(e) => {
                return Err(e);
            },
        }
        if first.len() == inputs.len() {
            let again: Vec<String> = script.second_inputs(first.as_slice());
            assert(strs(again@).len() == again@.len());
            if again.len() > 0 {
                match be.lines(again.as_slice(), lang) {
                    Ok(out) => {
                        second = out;
                    },
                    Err(e) => {
                        return Err(e);
                    },
                }
            }
        }
    }
    Ok(assemble(text, lang, first.as_slice(), second.as_slice()))
}

/// What turns a text into phonemes: every [`Phonemizer`].
pub trait Phonemize: Phonemizer + Sized {
    /// Turns `text` into phonemes.
    fn phonemize(&mut self, text: &str, lang: Lang) -> (r: Result<Phonemized, String>)
        ensures
            outcome(*old(self), text@, lang, result_view(r), *final(self)),
    ;
}

impl<P: Phonemizer> Phonemize for P {
    fn phonemize(&mut self, text: &str, lang: Lang) -> (r: Result<Phonemized, String>) {
        phonemize_words(self, text, lang)
    }
}

} // verus!
