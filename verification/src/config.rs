//! The settings of the server.

use crate::text::chars_of;
use vstd::prelude::*;

verus! {

/// Where the server listens, unless told otherwise.
pub const BIND: &'static str = "0.0.0.0:8080";

/// Where the database, the books and the sound are kept, unless told otherwise.
pub const DATA_DIR: &'static str = "./data";

/// Where the speech model is, unless told otherwise.
pub const MODEL: &'static str = "./models/kokoro-v1.0.onnx";

/// Where the voices are, unless told otherwise.
pub const VOICES: &'static str = "./models/voices";

/// How many threads the model runs on, unless told otherwise.
pub const THREADS: usize = 2;

/// The voice for English books, unless told otherwise.
pub const VOICE_EN: &'static str = "af_heart";

/// The voice for Portuguese books, unless told otherwise.
pub const VOICE_PT: &'static str = "pf_dora";

/// The program that phonemizes, unless told otherwise.
pub const ESPEAK_BIN: &'static str = "espeak-ng";

/// The program that converts a PDF to an EPUB, unless told otherwise.
pub const EBOOK_CONVERT: &'static str = "ebook-convert";

/// How many chunks are made ahead of time, unless told otherwise.
pub const PREFETCH: usize = 4;

/// How large an upload may be, in megabytes, unless told otherwise.
pub const MAX_UPLOAD_MB: usize = 200;

/// How many characters a token has at least.
pub const MIN_TOKEN: usize = 8;

/// The settings of the server.
#[derive(Debug, Clone)]
pub struct Config {
    /// Where the server listens.
    pub bind: String,
    /// Where the database, the books and the sound are kept.
    pub data_dir: String,
    /// What a client has to show.
    pub token: String,
    /// Where the speech model is.
    pub model: String,
    /// A directory of voices, or an archive of them.
    pub voices: String,
    /// How many threads the model runs on.
    pub threads: usize,
    /// The voice for English books.
    pub voice_en: String,
    /// The voice for Portuguese books.
    pub voice_pt: String,
    /// The program that phonemizes.
    pub espeak_bin: String,
    /// The program that reads the pages of a PDF, in place of the built-in reader.
    pub pdftotext: Option<String>,
    /// The program that converts a PDF to an EPUB.
    pub ebook_convert: String,
    /// The program that checks a converted EPUB, if there is one.
    pub epubcheck: Option<String>,
    /// How many chunks are made ahead of time.
    pub prefetch: usize,
    /// How large an upload may be, in megabytes.
    pub max_upload_mb: usize,
}

impl Config {
    /// The settings where only the token is given.
    pub fn new(token: &str) -> (r: Config)
        ensures
            r.bind@ == BIND@,
            r.data_dir@ == DATA_DIR@,
            r.token@ == token@,
            r.model@ == MODEL@,
            r.voices@ == VOICES@,
            r.threads == THREADS,
            r.voice_en@ == VOICE_EN@,
            r.voice_pt@ == VOICE_PT@,
            r.espeak_bin@ == ESPEAK_BIN@,
            r.pdftotext is None,
            r.ebook_convert@ == EBOOK_CONVERT@,
            r.epubcheck is None,
            r.prefetch == PREFETCH,
            r.max_upload_mb == MAX_UPLOAD_MB,
    {
        Config {
            bind: BIND.to_owned(),
            data_dir: DATA_DIR.to_owned(),
            token: token.to_owned(),
            model: MODEL.to_owned(),
            voices: VOICES.to_owned(),
            threads: THREADS,
            voice_en: VOICE_EN.to_owned(),
            voice_pt: VOICE_PT.to_owned(),
            espeak_bin: ESPEAK_BIN.to_owned(),
            pdftotext: None,
            ebook_convert: EBOOK_CONVERT.to_owned(),
            epubcheck: None,
            prefetch: PREFETCH,
            max_upload_mb: MAX_UPLOAD_MB,
        }
    }

    /// Refuses settings with a token that is too short.
    pub fn check(&self) -> (r: Result<(), &'static str>)
        ensures
            r is Ok <==> self.token@.len() >= 8,
            self.token@.len() >= MIN_TOKEN ==> r is Ok,
            self.token@.len() < MIN_TOKEN ==> (r matches Err(e) && e@
                == "READER_TOKEN precisa ter pelo menos 8 caracteres"@),
    {
        if chars_of(self.token.as_str()).len() < MIN_TOKEN {
            return Err("READER_TOKEN precisa ter pelo menos 8 caracteres");
        }
        Ok(())
    }

    /// How many threads the model runs on: at least one.
    pub fn model_threads(&self) -> (r: usize)
        ensures
            r == if self.threads == 0 {
                1
            } else {
                self.threads
            },
    {
        if self.threads == 0 {
            1
        } else {
            self.threads
        }
    }
}

} // verus!
