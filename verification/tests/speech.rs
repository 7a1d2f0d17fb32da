use reader::tts::espeak::{Cli, Ffi};
use reader::tts::kokoro::{
    check_style, duration_ms, model_ids, restore_pauses, Frames, ModelError, ModelNames,
    SynthError, STYLE_LEN,
};
use reader::tts::phonemize::{
    assemble, kokoro_fixups, normalize, word_pieces, Lang, Phonemize, Phonemizer,
};
use reader::tts::timing::{
    char_weight, phoneme_weight, plan_timings, token_groups, word_timings, words, Durations,
    Weight, WordTiming,
};
use reader::tts::vocab::{punct_ids, tokenize, vocab, MAX_TOKENS};
use reader::tts::{resolve_voice, VoiceDefaults};

// ------------------------------------------------------------------------------ voices

#[test]
fn resolve_voz() {
    let d = VoiceDefaults { en: "af_heart".into(), pt: "pf_dora".into() };
    assert_eq!(resolve_voice(&d, "pt-BR", None), ("pf_dora".into(), Lang::PtBr));
    assert_eq!(resolve_voice(&d, "en", None), ("af_heart".into(), Lang::EnUs));
    assert_eq!(resolve_voice(&d, "", Some("")), ("af_heart".into(), Lang::EnUs));
    assert_eq!(resolve_voice(&d, "en", Some("pm_alex")), ("pm_alex".into(), Lang::PtBr));
    assert_eq!(resolve_voice(&d, "pt", Some("jf_alpha")), ("jf_alpha".into(), Lang::PtBr));
}

#[test]
fn languages_have_codes() {
    assert_eq!(Lang::EnUs.code(), "en-us");
    assert_eq!(Lang::PtBr.espeak_voice(), "pt-br");
    assert_eq!(Lang::from_book_lang("PT-br"), Lang::PtBr);
    assert_eq!(Lang::from_book_lang("p"), Lang::EnUs);
    assert_eq!(Lang::from_voice("bf_emma"), Some(Lang::EnUs));
    assert_eq!(Lang::from_voice(""), None);
}

// --------------------------------------------------------------------------- phonemize

#[test]
fn pedacos_da_palavra() {
    let p = |w: &str| word_pieces(w);
    assert_eq!(p("mundo."), vec![("mundo".to_string(), false), (".".to_string(), true)]);
    assert_eq!(
        p("“concerns—something”"),
        vec![
            ("“".to_string(), true),
            ("concerns".to_string(), false),
            ("—".to_string(), true),
            ("something".to_string(), false),
            ("”".to_string(), true)
        ]
    );
}

/// A backend like espeak: phonemes are the text in brackets, "there were" comes out as
/// one word, and "2024" as three.
struct Fake;

impl Phonemizer for Fake {
    fn lines(&mut self, inputs: &[String], _lang: Lang) -> Result<Vec<String>, String> {
        Ok(inputs
            .iter()
            .map(|l| {
                l.replace("there were", "therewere")
                    .replace("2024", "two twenty four")
                    .split_whitespace()
                    .map(|w| format!("[{w}]"))
                    .collect::<Vec<_>>()
                    .join(" ")
            })
            .collect())
    }
}

#[test]
fn uma_entrada_por_palavra_mesmo_com_fusao_e_numeros() {
    let ph = Fake
        .phonemize("Olá, mundo. There were 2024 “risks—and” more?!", Lang::EnUs)
        .unwrap();
    let pw = ph.per_word.unwrap();
    assert_eq!(
        pw,
        vec![
            "[Olá],",
            "[mundo].",
            "[Theɹe]",
            "[weɹe]",
            "[two] [twenty] [fouɹ]",
            "“[ɹisks]—[and]”",
            "[moɹe]?!",
        ]
    );
    assert_eq!(ph.phonemes, pw.join(" "));
}

/// A backend that loses a line, and one that fails.
struct Broken {
    fail: bool,
    asked: usize,
}

impl Phonemizer for Broken {
    fn lines(&mut self, inputs: &[String], _lang: Lang) -> Result<Vec<String>, String> {
        self.asked += 1;
        if self.fail {
            return Err("quebrou".to_string());
        }
        Ok(inputs.iter().skip(1).cloned().collect())
    }
}

#[test]
fn lost_line_gives_no_alignment() {
    let mut be = Broken { fail: false, asked: 0 };
    let ph = be.phonemize("um, dois, três", Lang::PtBr).unwrap();
    assert_eq!(ph.per_word, None);
    assert_eq!(ph.phonemes, "dois tɹês");
    assert_eq!(be.asked, 1);
}

#[test]
fn backend_error_comes_back() {
    let mut be = Broken { fail: true, asked: 0 };
    assert_eq!(be.phonemize("um", Lang::PtBr), Err("quebrou".to_string()));
    // There is nothing to ask for in punctuation alone.
    let ph = be.phonemize("… !", Lang::PtBr).unwrap();
    assert_eq!(ph.per_word, Some(vec!["…".to_string(), "!".to_string()]));
    assert_eq!(be.asked, 1);
}

#[test]
fn punctuation_comes_back_where_it_was() {
    let text = "“Olá,” disse—enfim… ¿é ‘isso’?! fim z.";
    let first: Vec<String> =
        ["rola", "x z", "enfi r", "e isu", "fi z"].iter().map(|s| s.to_string()).collect();
    let ph = assemble(text, Lang::PtBr, &first, &[]);
    let marks = |s: &str| -> String { s.chars().filter(|c| ",.—…¿?!“”".contains(*c)).collect() };
    let got: Vec<String> = ph.per_word.unwrap().iter().map(|w| marks(w)).collect();
    let want: Vec<String> = text.split_whitespace().map(|w| marks(w)).collect();
    assert_eq!(got, want);
}

#[test]
fn assemble_takes_what_the_passes_gave() {
    let first = vec!["a b".to_string(), "c".to_string()];
    let ph = assemble("um dois. três", Lang::EnUs, &first, &[]);
    assert_eq!(ph.per_word.unwrap(), vec!["a", "b.", "c"]);
    let first = vec!["ab".to_string(), "c".to_string()];
    let second = vec!["A".to_string(), "B".to_string()];
    let ph = assemble("um dois. três", Lang::EnUs, &first, &second);
    assert_eq!(ph.phonemes, "A B. c");
    let ph = assemble("um dois. três", Lang::EnUs, &first, &[]);
    assert_eq!(ph.per_word, None);
}

#[test]
fn fixups_basicos() {
    assert_eq!(kokoro_fixups("ɹˈɛd r", Lang::EnUs), "ɹˈɛd ɹ");
    assert_eq!(kokoro_fixups("dˈɔɡ z.", Lang::EnUs), "dˈɔɡz.");
    assert_eq!(kokoro_fixups("nˈaɪnti", Lang::EnUs), "nˈaɪndi");
    assert_eq!(kokoro_fixups("nˈaɪnti", Lang::PtBr), "nˈaɪnti");
}

#[test]
fn fixups_leave_model_symbols() {
    assert_eq!(kokoro_fixups("kəkˈoːɹoʊ kəkˈɔːɹəʊ", Lang::PtBr), "kˈoʊkəɹoʊ kˈəʊkəɹəʊ");
    assert_eq!(kokoro_fixups("tʲ x ɬ t͡ʃ n̩", Lang::PtBr), "tj k l tʃ n");
    assert_eq!(kokoro_fixups("a z b z", Lang::EnUs), "az bz");
    assert_eq!(kokoro_fixups("a zb", Lang::EnUs), "a zb");
}

#[test]
fn normalize_makes_text_plain() {
    let s = normalize("d’água –  `x´\u{a0}y ");
    assert_eq!(s, "d'água - 'x' y");
    assert_eq!(normalize(&s), s);
}

#[test]
fn espeak_program_is_asked_line_by_line() {
    assert_eq!(Cli::new("espeak-ng").bin, "espeak-ng");
    assert_eq!(Cli::args(Lang::PtBr), vec!["-q", "--ipa", "-v", "pt-br"]);
    let lines = vec!["olá".to_string(), "(".to_string()];
    assert_eq!(Cli::input(&lines), "olá\n(\n".as_bytes().to_vec());
    assert_eq!(Cli::output(" a b \n\n c\r\n".as_bytes()), vec!["a b", "", "c"]);
    assert_eq!(Cli::output(&[0x61, 0xff, 0x0a]), vec!["a\u{fffd}"]);
}

#[test]
fn espeak_library_keeps_one_voice() {
    let mut f = Ffi::new();
    assert_eq!(f.wanted(Lang::EnUs), Some("en-us"));
    let e = f.selected(Lang::EnUs, 2).unwrap_err();
    assert_eq!((e.voice.as_str(), e.code), ("en-us", 2));
    assert_eq!(f.wanted(Lang::EnUs), Some("en-us"));
    assert!(f.selected(Lang::EnUs, 0).is_ok());
    assert_eq!(f.wanted(Lang::EnUs), None);
    assert_eq!(f.wanted(Lang::PtBr), Some("pt-br"));
    let cs = vec![" ".to_string(), " a ".to_string(), "b".to_string()];
    assert_eq!(Ffi::line(&cs), "a b");
}

// ------------------------------------------------------------------------------- vocab

fn id(c: char) -> i64 {
    vocab()[&(c as u32)]
}

#[test]
fn ids_conhecidos() {
    let v = vocab();
    assert_eq!(v[&('$' as u32)], 0);
    assert_eq!(v[&(';' as u32)], 1);
    assert_eq!(v[&(' ' as u32)], 16);
    assert_eq!(v[&('A' as u32)], 17);
    assert_eq!(v[&('a' as u32)], 43);
    assert_eq!(v[&('ɑ' as u32)], 69);
    assert_eq!(v[&('ˈ' as u32)], 156);
}

#[test]
fn tokenize_descarta_desconhecidos() {
    let t = tokenize("hˈɛlə|oʊ");
    assert!(!t.contains(&-1));
    assert_eq!(t.len(), 7);
}

#[test]
fn last_place_of_a_symbol_counts() {
    // The apostrophe stands on both sides of the combining mark.
    assert_eq!(id('\''), id('\u{329}') + 1);
    assert_eq!(tokenize("a'"), vec![43, id('\'')]);
}

#[test]
fn tokens_are_cut_off() {
    assert_eq!(tokenize(&"a".repeat(600)).len(), MAX_TOKENS);
    assert_eq!(punct_ids(), (1..=16).collect::<Vec<i64>>());
}

// ------------------------------------------------------------------------------ kokoro

struct Synth {
    samples: Vec<f32>,
    token_ids: Vec<i64>,
    durations: Option<Vec<f32>>,
}

/// Restores the pauses of a sound that was made at `speed`.
fn restore_pause_speed(out: &Synth, speed: f32) -> (Vec<f32>, Option<Vec<f32>>) {
    let Some(durations) = out.durations.as_deref() else {
        return (out.samples.clone(), None);
    };
    let total: f32 = durations.iter().sum();
    if (speed - 1.0).abs() < 1e-3 || total <= 0.0 {
        return (out.samples.clone(), Some(durations.to_vec()));
    }
    let per_frame = (out.samples.len() as f64 / total as f64).round().max(1.0) as usize;
    let frames: Vec<Frames> = durations
        .iter()
        .map(|fr| Frames {
            heard: fr.round().max(0.0) as usize,
            natural: (fr * speed).round().max(0.0) as usize,
        })
        .collect();
    let (samples, lens) = restore_pauses(&out.samples, &out.token_ids, &frames, per_frame);
    let durations = lens
        .iter()
        .zip(durations)
        .map(|(len, fr)| match len {
            Some(n) => *n as f32 / per_frame as f32,
            None => *fr,
        })
        .collect();
    (samples, Some(durations))
}

/// "aa ." in tokens, two samples per frame; each sample is its own place.
fn synth_fixture() -> Synth {
    let token_ids = vec![0, id('a'), id('a'), id(' '), id('.'), 0];
    let durations = vec![2.0, 10.0, 10.0, 4.0, 6.0, 2.0];
    let samples = (0..68).map(|i| i as f32).collect();
    Synth { samples, token_ids, durations: Some(durations) }
}

#[test]
fn restaura_pausas_e_preserva_fala_ao_dobrar_a_velocidade() {
    let s = synth_fixture();
    let (samples, durations) = restore_pause_speed(&s, 2.0);
    let durations = durations.unwrap();

    assert_eq!(durations, vec![4.0, 10.0, 10.0, 8.0, 12.0, 4.0]);
    assert_eq!(&samples[8..28], &s.samples[4..24]);
    assert_eq!(&samples[28..48], &s.samples[24..44]);
    assert_eq!(&samples[48..56], &s.samples[44..52]);
    assert_eq!(&samples[56..64], &s.samples[44..52]);
    assert_eq!(samples.len(), 96);
}

#[test]
fn duration_da_pausa_bate_com_o_arredondamento_usado_no_audio() {
    let token_ids = vec![0, id('a'), id(' '), id('a'), 0];
    let durations = vec![2.0, 5.0, 3.0, 5.0, 2.0];
    let samples = (0..34).map(|i| i as f32).collect();
    let s = Synth { samples, token_ids, durations: Some(durations) };

    let (samples, durations) = restore_pause_speed(&s, 1.3);
    let durations = durations.unwrap();

    assert_eq!(
        durations[2], 4.0,
        "3.0 * 1.3 = 3.9 → arredonda pra 4 frames, não fica cru em 3.9"
    );
    let samples_per_frame = 2;
    let total: f32 = durations.iter().sum();
    assert_eq!((total * samples_per_frame as f32).round() as usize, samples.len());
}

#[test]
fn nao_mexe_em_nada_quando_speed_e_1() {
    let s = synth_fixture();
    let (samples, durations) = restore_pause_speed(&s, 1.0);
    assert_eq!(samples, s.samples);
    assert_eq!(durations.unwrap(), *s.durations.as_ref().unwrap());
}

#[test]
fn sem_durations_do_modelo_devolve_amostras_como_vieram() {
    let mut s = synth_fixture();
    s.durations = None;
    let (samples, durations) = restore_pause_speed(&s, 1.5);
    assert_eq!(samples, s.samples);
    assert!(durations.is_none());
}

#[test]
fn natural_pauses_stay_as_they_are() {
    let f = |n| Frames { heard: n, natural: n };
    let ids = [0, id('a'), id(' '), id('.'), 0];
    let samples: Vec<u32> = (0..25).collect();
    let (out, lens) = restore_pauses(&samples, &ids, &[f(1), f(3), f(2), f(4), f(2)], 2);
    assert_eq!(out, samples);
    assert_eq!(lens.len(), ids.len());
    assert_eq!((lens[1], lens[2], lens[3]), (None, Some(4), Some(8)));
}

#[test]
fn pauses_are_cut_when_they_were_stretched() {
    let f = |heard, natural| Frames { heard, natural };
    let ids = [0, id('a'), 0];
    let samples: Vec<u32> = (0..12).collect();
    let (out, lens) = restore_pauses(&samples, &ids, &[f(4, 2), f(4, 2), f(2, 5)], 1);
    assert_eq!(out, vec![0, 1, 4, 5, 6, 7, 8, 9, 8, 9, 8, 10, 11]);
    assert_eq!(lens, vec![Some(2), None, Some(5)]);
}

#[test]
fn foreign_frames_change_nothing() {
    let samples: Vec<u32> = (0..4).collect();
    let f = Frames { heard: 1, natural: 2 };
    let (out, lens) = restore_pauses(&samples, &[0, 0, 0], &[f, f], 1);
    assert_eq!(out, samples);
    assert_eq!(lens, vec![None, None]);
    let huge = Frames { heard: usize::MAX, natural: 1 };
    let (out, lens) = restore_pauses(&samples, &[0, 0], &[huge, f], 3);
    assert_eq!(out, vec![0, 1, 2]);
    assert_eq!(lens, vec![Some(3), None]);
}

#[test]
fn durations_count_samples() {
    assert_eq!(duration_ms(24_000), 1000);
    assert_eq!(duration_ms(36_012), 1500);
    assert_eq!(duration_ms(0), 0);
}

#[test]
fn model_names_are_found() {
    let v = |a: &[&str]| a.iter().map(|s| s.to_string()).collect::<Vec<_>>();
    let n = ModelNames::find(&v(&["tokens", "input_ids"]), &v(&["durations", "waveform"])).unwrap();
    assert_eq!((n.tokens, n.audio, n.durations), ("input_ids", "waveform", Some("durations")));
    assert!(n.has_durations());
    let n = ModelNames::find(&v(&["tokens"]), &v(&["waveforms", "audio"])).unwrap();
    assert_eq!((n.tokens, n.audio, n.has_durations()), ("tokens", "audio", false));
    assert_eq!(ModelNames::find(&v(&["x"]), &v(&["audio"])).unwrap_err(), ModelError::NoTokens);
    assert_eq!(ModelNames::find(&v(&["tokens"]), &v(&["x"])).unwrap_err(), ModelError::NoAudio);
}

#[test]
fn model_ids_are_padded() {
    assert_eq!(model_ids("a ."), Ok(vec![0, 43, 16, 4, 0]));
    assert_eq!(model_ids("||"), Err(SynthError::NoTokens));
    assert!(check_style(&vec![0u8; STYLE_LEN]).is_ok());
    assert_eq!(check_style(&[0u8; 3]), Err(SynthError::StyleLen(3)));
}

// ------------------------------------------------------------------------------ timing

fn weight(w: &Weight) -> f32 {
    w.sounds as f32 + 0.5 + w.pauses as f32 * 1.5
}

/// Times the words of a text; also whether the durations told.
fn timings(
    text: &str,
    duration_ms: u32,
    per_word: Option<&[String]>,
    durations: Option<Durations<'_, f32>>,
) -> (Vec<WordTiming>, bool) {
    let plan = plan_timings(text, duration_ms, per_word, durations.as_ref());
    if plan.words.is_empty() {
        return (vec![], false);
    }
    let points = |first: f32, parts: &[f32], total: f32| {
        let mut acc = first;
        let mut out = vec![(acc / total * duration_ms as f32).round() as u32];
        for p in parts {
            acc += p;
            out.push((acc / total * duration_ms as f32).round() as u32);
        }
        out
    };
    if let (Some(groups), Some(d)) = (&plan.groups, &durations) {
        let sums: Vec<f32> = groups.iter().map(|g| d.per_token[g.0..g.1].iter().sum()).collect();
        let lead = d.per_token[0];
        let total = lead + sums.iter().sum::<f32>();
        return (word_timings(&plan.words, duration_ms, &points(lead, &sums, total)), true);
    }
    let ws: Vec<f32> = plan.weights.iter().map(weight).collect();
    let total: f32 = ws.iter().sum();
    (word_timings(&plan.words, duration_ms, &points(0.0, &ws, total)), false)
}

#[test]
fn words_com_offsets_utf16() {
    let w = words("Olá 😀 mundo!");
    assert_eq!(w.len(), 3);
    assert_eq!((w[0].text, w[0].offset16, w[0].len16), ("Olá", 0, 3));
    assert_eq!((w[1].text, w[1].offset16, w[1].len16), ("😀", 4, 2));
    assert_eq!((w[2].text, w[2].offset16, w[2].len16), ("mundo!", 7, 6));
}

#[test]
fn proporcional_por_chars_cobre_toda_a_duracao() {
    let (t, aligned) = timings("um dois três.", 1000, None, None);
    assert!(!aligned);
    assert_eq!(t.len(), 3);
    assert_eq!(t[0].s, 0);
    assert_eq!(t[2].e, 1000);
    for pair in t.windows(2) {
        assert_eq!(pair[0].e, pair[1].s);
    }
    assert!(t[2].e - t[2].s > t[0].e - t[0].s);
}

#[test]
fn proporcional_por_fonemas_quando_alinha() {
    let ph = vec!["ˈa".to_string(), "bbbbbbbb".to_string()];
    let (t, _) = timings("a b", 900, Some(&ph), None);
    assert_eq!(t[0].e, 135);
    assert_eq!(t[1].s, 135);
    assert_eq!(t[1].e, 900);
}

#[test]
fn durations_reais_somam_por_palavra() {
    let (sp, a, dot) = (id(' '), id('a'), id('.'));
    let ids = [0, a, a, sp, a, dot, 0];
    let fr = [2.0, 10.0, 10.0, 4.0, 20.0, 6.0, 2.0];
    let d = Durations { per_token: &fr, token_ids: &ids, space_id: sp };
    let pw = vec!["aa".to_string(), "a.".to_string()];
    let (t, aligned) = timings("aa a.", 540, Some(&pw), Some(d));
    assert!(aligned);
    assert_eq!(t.len(), 2);
    assert_eq!(t[0].s, 20);
    assert_eq!(t[0].e, 260);
    assert_eq!(t[1].s, 260);
    assert_eq!(t[1].e, 540);
}

#[test]
fn durations_incompativeis_caem_para_proporcional() {
    let ids = [0i64, 43, 0];
    let fr = [1.0f32, 1.0, 1.0];
    let d = Durations { per_token: &fr, token_ids: &ids, space_id: 16 };
    let pw = vec!["a".to_string(), "b".to_string()];
    let (t, aligned) = timings("duas palavras", 100, Some(&pw), Some(d));
    assert!(!aligned);
    assert_eq!(t.len(), 2);
    assert_eq!(t[1].e, 100);
}

#[test]
fn silence_has_no_timings() {
    assert_eq!(timings("um dois", 0, None, None), (vec![], false));
    assert_eq!(timings("  ", 100, None, None), (vec![], false));
}

#[test]
fn weights_count_sounds_letters_and_pauses() {
    assert_eq!(phoneme_weight("ˈa ˌbː"), Weight { sounds: 2, pauses: 0 });
    assert_eq!(phoneme_weight("ˈ"), Weight { sounds: 1, pauses: 0 });
    assert_eq!(char_weight("três…?"), Weight { sounds: 4, pauses: 2 });
    assert_eq!(char_weight("—"), Weight { sounds: 1, pauses: 0 });
}

#[test]
fn words_of_joined_phonemes_align() {
    let pw = vec!["[a]".to_string(), "b c".to_string(), "d.".to_string()];
    let ids = model_ids(&pw.join(" ")).unwrap();
    let per_token = vec![1u8; ids.len()];
    let d = Durations { per_token: &per_token, token_ids: &ids, space_id: id(' ') };
    assert_eq!(token_groups(&d, &pw), Some(vec![(1, 3), (3, 7), (7, 10)]));
    let short = Durations { per_token: &per_token[1..], token_ids: &ids, space_id: id(' ') };
    assert_eq!(token_groups(&short, &pw), None);
}

#[test]
fn word_never_ends_before_it_starts() {
    let ws = words("a b");
    let t = word_timings(&ws, 50, &[20, 10, 30]);
    assert_eq!(t[0], WordTiming { o: 0, l: 1, s: 20, e: 20 });
    assert_eq!(t[1], WordTiming { o: 2, l: 1, s: 10, e: 50 });
}
