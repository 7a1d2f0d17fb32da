//! From text to speech.
//!
//! A paragraph is cut into chunks ([`chunk`]); a chunk is phonemized ([`phonemize`])
//! and tokenized ([`vocab`]); the tokens and the style of a voice ([`voices`]) go to the
//! speech model ([`kokoro`]); its sound is timed word by word ([`timing`]). One worker
//! does all that, for everyone who waits for it ([`queue`]).

pub mod chunk;
pub mod chunk_laws;
pub mod clauses;
pub mod espeak;
pub mod espeak_laws;
pub mod fixup_laws;
pub mod kokoro;
pub mod pause_laws;
pub mod phonemize;
pub mod phonemize_laws;
pub mod piece_laws;
pub mod queue;
pub mod queue_laws;
pub mod sentence_laws;
pub mod speech_laws;
pub mod timing;
pub mod timing_laws;
pub mod vocab;
pub mod voice_laws;
pub mod voices;

use crate::text::is_empty;
use phonemize::{book_lang_of, voice_lang, Lang};
use vstd::prelude::*;

verus! {

/// The voice that is used for each language where none is asked for.
#[derive(Debug, Clone)]
pub struct VoiceDefaults {
    pub en: String,
    pub pt: String,
}

impl VoiceDefaults {
    /// The voice for `lang`.
    pub fn for_lang(&self, lang: Lang) -> (r: &str)
        ensures
            r@ == self.voice(lang),
    {
        match lang {
            Lang::EnUs => self.en.as_str(),
            Lang::PtBr => self.pt.as_str(),
        }
    }

    /// The voice for `lang`.
    pub open spec fn voice(&self, lang: Lang) -> Seq<char> {
        match lang {
            Lang::EnUs => self.en@,
            Lang::PtBr => self.pt@,
        }
    }
}

/// The voice and the language of a paragraph. A voice that is asked for wins, and
/// otherwise it is the one for the book's language. The language follows the voice,
/// where its name tells one, and otherwise the book.
pub fn resolve_voice(defaults: &VoiceDefaults, book_lang: &str, requested: Option<&str>) -> (r: (
    String,
    Lang,
))
    ensures
        r.0@ == match requested {
            Some(v) => if v@.len() > 0 {
                v@
            } else {
                defaults.voice(book_lang_of(book_lang@))
            },
            None => defaults.voice(book_lang_of(book_lang@)),
        },
        r.1 == match voice_lang(r.0@) {
            Some(lang) => lang,
            None => book_lang_of(book_lang@),
        },
{
    let book: Lang = Lang::from_book_lang(book_lang);
    let mut voice: String = defaults.for_lang(book).to_owned();
    if let Some(v) = requested {
        if !is_empty(v) {
            voice = v.to_owned();
        }
    }
    let lang: Lang = match Lang::from_voice(voice.as_str()) {
        Some(lang) => lang,
        None => book,
    };
    (voice, lang)
}

} // verus!
