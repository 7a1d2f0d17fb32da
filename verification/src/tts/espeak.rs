//! The two backends that phonemize with espeak-ng: what they ask of it, and what they
//! make of its answer.

use crate::text::edit::{lines, split_lines};
use crate::text::utf8::{decode_lossy, lossy};
use crate::text::{chars_of, lemma_strs_push, push_chars, rows, string_of, strs, trim, trimmed};
use crate::tts::phonemize::{lang_code, Lang};
use vstd::prelude::*;
use vstd::utf8::encode_utf8;

verus! {

// ---------------------------------------------------------------------- as a program

/// The backend that runs the program `bin` once for each list of lines.
#[derive(Debug)]
pub struct Cli {
    pub bin: String,
}

/// The bytes of the lines `v`, each with a line feed after it.
pub open spec fn fed(v: Seq<Seq<char>>) -> Seq<u8>
    decreases v.len(),
{
    if v.len() == 0 {
        Seq::empty()
    } else {
        fed(v.drop_last()) + encode_utf8(v.last()) + seq![10u8]
    }
}

/// The lines of `text`, each without the white space around it. An empty line counts.
pub open spec fn trimmed_lines(text: Seq<char>) -> Seq<Seq<char>> {
    Seq::new(lines(text).len(), |i: int| trim(lines(text)[i]))
}

/// The lines of `text`, each without the white space around it.
fn trim_lines(text: &str) -> (r: Vec<String>)
    ensures
        strs(r@) == trimmed_lines(text@),
{
    let cs: Vec<char> = chars_of(text);
    let ls: Vec<Vec<char>> = split_lines(cs.as_slice());
    let mut out: Vec<String> = Vec::new();
    let mut i: usize = 0;
    while i < ls.len()
        invariant
            0 <= i <= ls@.len(),
            rows(ls@) == lines(text@),
            strs(out@) =~= trimmed_lines(text@).take(i as int),
        decreases ls@.len() - i,
    {
        let t: String = string_of(trimmed(ls[i].as_slice()));
        assert(rows(ls@)[i as int] == ls@[i as int]@);
        proof {
            lemma_strs_push(out@, t);
        }
        out.push(t);
        i = i + 1;
    }
    assert(rows(ls@).len() == ls@.len());
    out
}

impl Cli {
    /// A backend that runs `bin`.
    pub fn new(bin: &str) -> (r: Cli)
        ensures
            r.bin@ == bin@,
    {
        Cli { bin: bin.to_owned() }
    }

    /// The arguments of the program: phonemes only, as IPA, in the voice of `lang`. It
    /// then takes its input line by line, and joins no words across lines.
    pub fn args(lang: Lang) -> (r: Vec<String>)
        ensures
            strs(r@) == seq!["-q"@, "--ipa"@, "-v"@, lang_code(lang)],
    {
        let mut out: Vec<String> = Vec::new();
        out.push("-q".to_owned());
        out.push("--ipa".to_owned());
        out.push("-v".to_owned());
        out.push(lang.espeak_voice().to_owned());
        assert(strs(out@) =~= seq!["-q"@, "--ipa"@, "-v"@, lang_code(lang)]);
        out
    }

    /// What the program is given to read.
    pub fn input(inputs: &[String]) -> (r: Vec<u8>)
        ensures
            r@ == fed(strs(inputs@)),
    {
        let mut out: Vec<u8> = Vec::new();
        let mut i: usize = 0;
        while i < inputs.len()
            invariant
                0 <= i <= inputs@.len(),
                out@ =~= fed(strs(inputs@).take(i as int)),
            decreases inputs@.len() - i,
        {
            let ghost next = strs(inputs@).take(i + 1);
            assert(next.drop_last() =~= strs(inputs@).take(i as int));
            assert(next.last() == inputs@[i as int]@);
            let bytes: &[u8] = inputs[i].as_str().as_bytes();
            out.extend_from_slice(bytes);
            out.push(10);
            i = i + 1;
        }
        assert(strs(inputs@).take(i as int) =~= strs(inputs@));
        out
    }

    /// The lines of phonemes in what the program wrote.
    pub fn output(stdout: &[u8]) -> (r: Vec<String>)
        ensures
            strs(r@) == trimmed_lines(lossy(stdout@)),
    {
        trim_lines(decode_lossy(stdout).as_str())
    }
}

// ---------------------------------------------------------------------- as a library

/// The backend that calls the library. The library keeps one voice at a time.
#[derive(Debug)]
pub struct Ffi {
    /// The language of the voice that is set.
    pub current: Option<Lang>,
}

/// The library refused a voice.
#[derive(Debug)]
pub struct SetVoiceError {
    pub voice: String,
    pub code: i32,
}

/// `clauses`, each without the white space around it and with a space between them;
/// nothing comes before the first one that is not empty.
pub open spec fn spaced(clauses: Seq<Seq<char>>) -> Seq<char>
    decreases clauses.len(),
{
    if clauses.len() == 0 {
        Seq::empty()
    } else {
        let init = spaced(clauses.drop_last());
        if init.len() == 0 {
            trim(clauses.last())
        } else {
            init.push(' ') + trim(clauses.last())
        }
    }
}

impl Ffi {
    /// No voice is set at first.
    pub fn new() -> (r: Ffi)
        ensures
            r.current is None,
    {
        Ffi { current: None }
    }

    /// The voice to set before a line in `lang` is phonemized, unless it is set.
    pub fn wanted(&self, lang: Lang) -> (r: Option<&'static str>)
        ensures
            self.current == Some(lang) ==> r is None,
            self.current != Some(lang) ==> r is Some && r->0@ == lang_code(lang),
    {
        match self.current {
            Some(now) => if now == lang {
                None
            } else {
                Some(lang.espeak_voice())
            },
            None => Some(lang.espeak_voice()),
        }
    }

    /// Takes note of what the library said to the voice of `lang`: zero if it is set.
    pub fn selected(&mut self, lang: Lang, code: i32) -> (r: Result<(), SetVoiceError>)
        ensures
            code == 0 ==> r is Ok && final(self).current == Some(lang),
            code != 0 ==> final(self).current == old(self).current,
            code != 0 ==> (r matches Err(e) && e.voice@ == lang_code(lang) && e.code == code),
    {
        if code != 0 {
            return Err(SetVoiceError { voice: lang.espeak_voice().to_owned(), code });
        }
        self.current = Some(lang);
        Ok(())
    }

    /// The line of phonemes made of the clauses that the library gave for it.
    pub fn line(clauses: &[String]) -> (r: String)
        ensures
            r@ == spaced(strs(clauses@)),
    {
        let mut out: Vec<char> = Vec::new();
        let mut i: usize = 0;
        while i < clauses.len()
            invariant
                0 <= i <= clauses@.len(),
                out@ =~= spaced(strs(clauses@).take(i as int)),
            decreases clauses@.len() - i,
        {
            let ghost next = strs(clauses@).take(i + 1);
            assert(next.drop_last() =~= strs(clauses@).take(i as int));
            assert(next.last() == clauses@[i as int]@);
            if out.len() > 0 {
                out.push(' ');
            }
            push_chars(&mut out, trimmed(chars_of(clauses[i].as_str()).as_slice()));
            i = i + 1;
        }
        assert(strs(clauses@).take(i as int) =~= strs(clauses@));
        string_of(out.as_slice())
    }
}

} // verus!
