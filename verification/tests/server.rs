use reader::config::Config;
use reader::db::{book_rows, pending_migrations, Book, Clip};
use reader::extract::{ExtractError, Kind, Paragraph, Section};
use reader::http::assets::{asset_for, headers, page, serve, version};
use reader::http::auth::{ct_eq, token_ok};
use reader::http::books::{
    deleted_file, known_book, known_section, section_detail, stored_path, unreadable, UploadForm,
};
use reader::http::clips::{
    ahead, available, check_key, check_request, check_voice, chunk_info, failed, get_steps,
    known_paragraph, meta, meta_with, needs_following, plan, required_chunk, timed_out,
    to_prefetch, voices_info, wants_following, Step,
};
use reader::http::{body_limit, ApiError};
use reader::tts::phonemize::Lang;
use reader::tts::queue::{
    capacity, clip_path, finished_clip, speakable, Info, Queue, QueueError, Request,
};
use reader::tts::voices::{
    archive_voice, archive_voices, bare_voice, check_name, dir_voices, header_fits, npy_voice,
    npz_voices, parse_npy_f32, raw_f32_le, style, VoiceError, STYLE_DIM, STYLE_ROWS,
};
use reader::tts::VoiceDefaults;
use sha2::Digest;
use std::io::{Cursor, Write};

fn told<T>(r: Result<T, ApiError>) -> (u16, String) {
    match r {
        Ok(_) => panic!("no error"),
        Err(e) => (e.0, e.1),
    }
}

fn err(status: u16, text: &str) -> (u16, String) {
    (status, text.to_string())
}

// -------------------------------------------------------------------------------- auth

#[test]
fn aceita_header_cookie_e_query() {
    let mk = |h: Option<(&str, &str)>, uri: &str| {
        let get = |k: &str| h.filter(|(name, _)| *name == k).map(|(_, v)| v.to_string());
        let query = uri.split_once('?').map(|(_, q)| q.to_string());
        (get("authorization"), get("cookie"), query)
    };
    let ok = |expected: &str, r: &(Option<String>, Option<String>, Option<String>)| {
        token_ok(expected, r.0.as_deref(), r.1.as_deref(), r.2.as_deref())
    };
    assert!(ok("s3cret", &mk(Some(("authorization", "Bearer s3cret")), "/x")));
    assert!(ok("s3cret", &mk(Some(("cookie", "a=1; reader_token=s3cret")), "/x")));
    assert!(ok("s3cret", &mk(None, "/x?y=1&token=s3cret")));
    assert!(!ok("s3cret", &mk(Some(("authorization", "Bearer nope")), "/x")));
    assert!(!ok("s3cret", &mk(None, "/x")));
}

#[test]
fn token_is_compared_whole() {
    assert!(token_ok("a=b", Some("Bearer  a=b "), None, None));
    assert!(!token_ok("abc", Some("bearer abc"), None, None));
    assert!(!token_ok("abc", None, Some("x_reader_token=abc; reader_token"), None));
    assert!(token_ok("abc", None, Some("reader_token= abc ;b=1"), None));
    assert!(!token_ok("abc", None, None, Some("token=abc%20")));
    assert!(ct_eq("é", "é") && !ct_eq("ab", "ac") && !ct_eq("a", "ab"));
}

// ------------------------------------------------------------------------------ assets

#[test]
fn page_names_its_files_with_versions() {
    assert_eq!(asset_for("/"), Some("index.html"));
    assert_eq!(asset_for("/sw.js"), Some("sw.js"));
    assert_eq!(asset_for("/x"), None);
    let html = br#"<script src="/app.js"></script><link href="/style.css"><a href="/app.jsx">"#;
    let s = serve("index.html", html, "00ff", "12");
    assert_eq!(
        String::from_utf8(s.body).unwrap(),
        r#"<script src="/app.js?v=00ff"></script><link href="/style.css?v=12"><a href="/app.jsx">"#
    );
    assert_eq!(
        s.headers,
        vec![
            ("content-type".to_string(), "text/html".to_string()),
            ("cache-control".to_string(), "no-cache".to_string())
        ]
    );
    let s = serve("sw.js", b"/app.js\"\xff", "1", "2");
    assert_eq!(s.body, b"/app.js\"\xff".to_vec());
    assert_eq!(s.headers[1], ("service-worker-allowed".to_string(), "/".to_string()));
    assert_eq!(s.headers.len(), 3);
    assert_eq!(serve("icon.svg", b"", "", "").headers[0].1, "image/svg+xml");
}

#[test]
fn headers_go_with_the_file() {
    let pair = |a: &str, b: &str| (a.to_string(), b.to_string());
    assert_eq!(
        headers("icon.svg", "image/x".into()),
        vec![pair("content-type", "image/x"), pair("cache-control", "no-cache")]
    );
    assert_eq!(
        headers("sw.js", "t/j".into()),
        vec![
            pair("content-type", "t/j"),
            pair("service-worker-allowed", "/"),
            pair("cache-control", "no-cache"),
        ]
    );
    let html = "<a src=\"/app.js\"><b href=\"/style.css\"><c src=\"/app.js\"> /app.js";
    assert_eq!(
        page(html, "1", "2"),
        "<a src=\"/app.js?v=1\"><b href=\"/style.css?v=2\"><c src=\"/app.js?v=1\"> /app.js"
    );
}

#[test]
fn version_is_the_start_of_the_hash() {
    assert_eq!(version(Some(&[0, 0xff, 0x1a, 2, 9, 9])), "00ff1a02");
    assert_eq!(version(None), "");
}

// ------------------------------------------------------------------------------- books

#[test]
fn upload_is_checked() {
    let empty = UploadForm::new();
    assert_eq!(told(empty.finish()), err(400, "campo `file` ausente"));

    let mut f = UploadForm::new();
    assert!(UploadForm::wants(Some("file")) && !UploadForm::wants(Some("x")));
    f.field(Some("other"), Some("o.pdf"), b"%PDF".to_vec());
    assert!(f.bytes.is_none());
    f.field(Some("file"), None, b"texto".to_vec());
    assert_eq!(f.filename, "livro");
    assert_eq!(told(f.finish()), err(415, "só PDF ou EPUB"));

    let mut f = UploadForm::new();
    f.field(Some("file"), Some("a.txt"), b"x".to_vec());
    f.field(Some("file"), Some("b.epub"), b"PK\x03\x04".to_vec());
    let u = f.finish().unwrap();
    assert_eq!((u.filename.as_str(), u.kind), ("b.epub", Kind::Epub));
    assert_eq!(u.bytes, b"PK\x03\x04".to_vec());
    let e = unreadable(&ExtractError::Missing("x.opf".to_string(), "falta".to_string()));
    assert_eq!((e.0, e.1.as_str()), (422, "x.opf não existe no EPUB: falta"));
}

#[test]
fn stored_name_is_safe() {
    assert_eq!(
        stored_path(12, "../Meu Livro (é).PDF.pdf", Kind::Pdf),
        "books/12-..MeuLivroé.PDF.pdf"
    );
    assert_eq!(stored_path(0, "a.epub.pdf.pdf", Kind::Epub), "books/0-a.epub");
    let long = "x".repeat(100);
    assert_eq!(
        stored_path(1, &long, Kind::Epub),
        format!("books/1-{}.epub", "x".repeat(80))
    );
}

fn book() -> Book {
    Book {
        id: 3,
        title: "t".into(),
        lang: "pt".into(),
        kind: "pdf".into(),
        section_count: 1,
        pos_section: 0,
        pos_paragraph: 0,
        created_at: "c".into(),
        opened_at: "o".into(),
    }
}

#[test]
fn missing_things_are_not_found() {
    assert_eq!(known_book(Some(book())).unwrap().id, 3);
    assert_eq!(told(known_book(None)), err(404, "livro não existe"));
    assert_eq!(told(known_section(None)), err(404, "seção não existe"));
    assert_eq!(told(known_paragraph::<u8>(None)), err(404, "parágrafo não existe"));
    assert_eq!(told(deleted_file(None)), err(404, "livro não existe"));
    assert_eq!(deleted_file(Some("books/x".to_string())).unwrap(), "books/x");
    let s = reader::db::Section { id: 5, idx: 2, title: "S".into() };
    let d = section_detail(s, vec![]);
    assert_eq!((d.id, d.idx, d.title.as_str(), d.paragraphs.len()), (5, 2, "S", 0));
    assert_eq!(body_limit(200), 209_715_200);
}

#[test]
fn rows_are_numbered() {
    let p = |t: &str| Paragraph { kind: "p".into(), text: t.into() };
    let sections = vec![
        Section { title: "A".into(), paragraphs: vec![p("1"), p("2")] },
        Section { title: "B".into(), paragraphs: vec![p("3")] },
    ];
    let rows = book_rows(&sections);
    assert_eq!(rows.section_count, 2);
    assert_eq!((rows.sections[1].idx, rows.sections[1].title.as_str()), (1, "B"));
    let last = &rows.sections[0].paragraphs[1];
    assert_eq!((last.idx, last.kind.as_str(), last.text.as_str()), (1, "p", "2"));
    assert_eq!(pending_migrations(&[1, 2, 3], &[2, 9]), vec![1, 3]);
}

// ------------------------------------------------------------------------------- clips

fn defaults() -> VoiceDefaults {
    VoiceDefaults { en: "af_heart".into(), pt: "pf_dora".into() }
}

#[test]
fn paragraph_is_planned_chunk_by_chunk() {
    let text = format!("{}. {}.", "a".repeat(300), "b".repeat(300));
    let p = plan(&defaults(), &text, "pt-BR", None, "1.00");
    assert_eq!((p.voice.as_str(), p.lang, p.chunks.len()), ("pf_dora", Lang::PtBr, 2));
    assert_eq!(p.requests[1].text, p.chunks[1].text);
    assert_eq!(p.requests[1].speed, "1.00");

    let key = p.requests[1].key();
    assert!(check_request(&p.requests, 1, &key).is_ok());
    let wrong = "key não corresponde a paragraph/chunk/voice/speed";
    assert_eq!(told(check_request(&p.requests, 0, &key)), err(409, wrong));
    assert_eq!(told(check_request(&p.requests, 2, &key)), err(404, "chunk fora do parágrafo"));
    assert_eq!(told(required_chunk(None)), err(400, "chunk obrigatório"));
    assert_eq!(required_chunk(Some(4)).unwrap(), 4);

    let following = vec!["Outro. Parágrafo.".to_string(), "Mais um.".to_string()];
    let a = |n| ahead(&p, 0, &following, "1.00", n);
    assert!(needs_following(2, 0, 2) && !needs_following(2, 0, 1));
    assert_eq!(a(0).len(), 0);
    assert_eq!(a(1)[0].text, p.chunks[1].text);
    let all: Vec<String> = a(9).into_iter().map(|r| r.text).collect();
    assert_eq!(all[1..], ["Outro. Parágrafo.".to_string(), "Mais um.".to_string()]);
    assert_eq!(a(2).len(), 2);
    assert_eq!(a(2)[1].voice, "pf_dora");
}

fn clip(timings: &str) -> Clip {
    Clip {
        key: "k".into(),
        path: "audio/ab/abc.wav".into(),
        duration_ms: 10,
        word_timings: timings.into(),
        aligned: true,
    }
}

#[test]
fn clips_are_shown() {
    let m = meta(clip(" [ {\"o\":0} ] "));
    assert_eq!(m.url, "/audio/ab/abc.wav");
    assert_eq!(m.word_timings, "[ {\"o\":0} ]");
    assert_eq!((m.duration_ms, m.aligned, m.key.as_str()), (10, true, "k"));
    assert_eq!(meta(clip("[1,")).word_timings, "[]");
    assert_eq!(meta_with(clip("x"), Some("[2]".into())).word_timings, "[2]");
    assert_eq!(meta_with(clip("x"), None).word_timings, "[]");
    assert!(check_key(Some("a"), "a").is_ok());
    assert_eq!(
        told(check_key(Some("a"), "b")),
        err(409, "key não corresponde a paragraph/chunk/voice/speed")
    );
    assert_eq!(told(check_key(None, "a")), err(404, "chunk fora do parágrafo"));
    let p = plan(&defaults(), "Oi.", "en", Some("pf_x"), "0.75");
    assert_eq!((p.voice.as_str(), p.lang), ("pf_x", Lang::PtBr));
    let i = chunk_info(&p.chunks[0], "chave", Some(clip("[]")));
    assert_eq!((i.idx, i.offset, i.text.as_str(), i.key.as_str()), (0, 0, "Oi.", "chave"));
    assert_eq!(i.clip.unwrap().url, "/audio/ab/abc.wav");
    assert!(chunk_info(&p.chunks[0], "chave", None).clip.is_none());
}

#[test]
fn real_request_comes_first() {
    let text = "a".repeat(300) + ". " + &"b".repeat(300) + ".";
    let p = plan(&defaults(), &text, "pt", None, "1.00");
    let key = p.requests[0].key();
    let next = vec!["Outro.".to_string(), "Mais.".to_string()];
    let steps = get_steps(true, Some(0), Some(&p), &key, &next, "1.00", 2).unwrap();
    let got: Vec<(&str, &str)> = steps
        .iter()
        .map(|s| match s {
            Step::Ask(r) => ("ask", &r.text[..1]),
            Step::Prefetch(r) => ("prefetch", &r.text[..1]),
            Step::Wait => ("wait", ""),
        })
        .collect();
    assert_eq!(got, vec![("ask", "a"), ("prefetch", "b"), ("prefetch", "O"), ("wait", "")]);
    let alone = get_steps(true, Some(0), Some(&p), &key, &[], "1.00", 0).unwrap();
    assert_eq!(alone.len(), 2);

    let refused = |tts, chunk, plan, key: &str| {
        told(get_steps(tts, chunk, plan, key, &next, "1.00", 2))
    };
    let no_tts = err(503, "TTS indisponível neste servidor");
    assert_eq!(refused(false, None, None, ""), no_tts);
    assert_eq!(refused(false, Some(0), Some(&p), &key), no_tts);
    assert_eq!(refused(true, None, None, ""), err(400, "chunk obrigatório"));
    assert_eq!(refused(true, Some(9), None, ""), err(404, "parágrafo não existe"));
    assert_eq!(refused(true, Some(2), Some(&p), &key), err(404, "chunk fora do parágrafo"));
    assert_eq!(
        refused(true, Some(1), Some(&p), &key),
        err(409, "key não corresponde a paragraph/chunk/voice/speed")
    );

    assert!(wants_following(&p, 0, &key, 2) && !wants_following(&p, 0, &key, 1));
    assert!(!wants_following(&p, 0, "x", 2) && !wants_following(&p, 2, &key, 2));
}

#[test]
fn first_missing_clips_are_made_ahead() {
    assert_eq!(to_prefetch(&[true, false, true, false, false], 2), vec![1, 3]);
    assert_eq!(to_prefetch(&[false], 0), Vec::<usize>::new());
    assert_eq!(to_prefetch(&[true, true], 4), Vec::<usize>::new());
}

#[test]
fn voices_are_told_and_checked() {
    let info = Info { aligned: true, voices: vec!["af_heart".into()] };
    let v = voices_info(Some(&info), &defaults());
    assert!(v.available && v.aligned);
    assert_eq!(v.voices, vec!["af_heart"]);
    assert_eq!((v.default_en.as_str(), v.default_pt.as_str()), ("af_heart", "pf_dora"));
    let v = voices_info(None, &defaults());
    assert!(!v.available && !v.aligned && v.voices.is_empty());
    assert!(check_voice(&info.voices, Some("af_heart")).is_ok());
    assert!(check_voice(&info.voices, Some("")).is_ok());
    assert!(check_voice(&info.voices, None).is_ok());
    assert_eq!(told(check_voice(&info.voices, Some("x"))), err(400, "voz desconhecida: x"));
    assert_eq!(told(available::<u8>(None)), err(503, "TTS indisponível neste servidor"));
    assert_eq!(available(Some(1)).unwrap(), 1);
    let e = failed("fila de TTS cheia");
    assert_eq!((e.0, e.1.as_str()), (503, "fila de TTS cheia"));
    assert_eq!(timed_out().0, 504);
}

// ------------------------------------------------------------------------------- queue

fn request(voice: &str, speed: f32) -> Request {
    Request {
        text: "Olá".into(),
        voice: voice.into(),
        speed: format!("{speed:.2}"),
        lang: Lang::PtBr,
    }
}

#[test]
fn chave_estavel_e_sensivel() {
    let a = request("pf_dora", 1.0);
    let b = request("pf_dora", 1.001);
    let c = request("pm_alex", 1.0);
    assert_eq!(a.key(), b.key(), "1.0 e 1.001 arredondam igual");
    assert_ne!(a.key(), c.key());
    assert_eq!(a.key().len(), 64);
}

#[test]
fn key_is_the_hash_of_the_identity() {
    let r = Request { text: "".into(), voice: "".into(), speed: "".into(), lang: Lang::EnUs };
    let want = hex::encode(sha2::Sha256::digest(b"\0\0\0v3"));
    assert_eq!(r.key(), want);
    let r = request("pf_dora", 1.5);
    let want = hex::encode(sha2::Sha256::digest("Olá\0pf_dora\01.50\0v3".as_bytes()));
    assert_eq!(r.key(), want);
    assert_eq!(clip_path("abcd"), "audio/ab/abcd.wav");
    let c = finished_clip("abcd", 7, "[]".to_string(), false);
    assert_eq!((c.path.as_str(), c.duration_ms, c.aligned), ("audio/ab/abcd.wav", 7, false));
}

#[test]
fn same_text_is_made_once_for_all_who_wait() {
    let mut q: Queue<u32> = Queue::new();
    assert!(q.request("k", 1));
    assert!(!q.request("k", 2));
    assert!(!q.prefetch("k"));
    assert!(q.start("k"));
    assert_eq!(q.remove("k"), vec![1, 2]);
    assert_eq!(q.remove("k"), Vec::<u32>::new());
    assert!(q.request("k", 3));
}

#[test]
fn old_prefetch_is_dropped_unless_renewed() {
    let mut q: Queue<u32> = Queue::new();
    assert!(q.prefetch("a"));
    assert!(q.prefetch("b"));
    assert!(q.prefetch("c"));
    assert!(q.request("x", 1));
    assert!(!q.prefetch("b"));
    assert!(!q.request("c", 2));
    // `b` was renewed before the last real request, so only what is real is left.
    assert!(!q.start("a"));
    assert!(!q.start("b"));
    assert!(q.start("c"));
    assert_eq!(q.remove("c"), vec![2]);
    assert!(q.prefetch("a"));
    assert!(q.start("a"));
    assert!(q.start("unknown"));
}

#[test]
fn queue_errors_are_told() {
    assert_eq!(QueueError::Full.message(), "fila de TTS cheia");
    assert_eq!(QueueError::Closed.message(), "worker de TTS morreu");
    assert_eq!(QueueError::Dropped.message(), "worker de TTS descartou o pedido");
    assert_eq!((capacity(0), capacity(64)), (4, 64));
    assert!(speakable(" a ") && !speakable(" \n"));
}

// ------------------------------------------------------------------------------ voices

fn npy(header: &str, data: &[f32]) -> Vec<u8> {
    let mut b = Vec::new();
    b.extend_from_slice(b"\x93NUMPY\x01\x00");
    b.extend_from_slice(&(header.len() as u16).to_le_bytes());
    b.extend_from_slice(header.as_bytes());
    for f in data {
        b.extend_from_slice(&f.to_le_bytes());
    }
    b
}

fn floats(v: Vec<u32>) -> Vec<f32> {
    v.into_iter().map(f32::from_bits).collect()
}

#[test]
fn npy_minimo() {
    let mut header = String::from("{'descr': '<f4', 'fortran_order': False, 'shape': (2,), }");
    while (10 + header.len() + 1) % 64 != 0 {
        header.push(' ');
    }
    header.push('\n');
    let mut b = Vec::new();
    b.extend_from_slice(b"\x93NUMPY\x01\x00");
    b.extend_from_slice(&(header.len() as u16).to_le_bytes());
    b.extend_from_slice(header.as_bytes());
    b.extend_from_slice(&1.5f32.to_le_bytes());
    b.extend_from_slice(&(-2.0f32).to_le_bytes());
    assert!(header_fits(&b));
    assert_eq!(floats(parse_npy_f32(&b).unwrap()), vec![1.5, -2.0]);
}

#[test]
fn npy_errors_have_their_cause() {
    let e = |b: &[u8]| parse_npy_f32(b).unwrap_err();
    assert!(matches!(e(b"nada"), VoiceError::NotNpy));
    assert!(matches!(e(b"\x93NUMPY\x04\x00\x00\x00"), VoiceError::Version(4)));
    assert!(matches!(e(b"\x93NUMPY\x01\x00\x01\x00\xff"), VoiceError::Header(e)
        if e == "invalid utf-8 sequence of 1 bytes from index 0"));
    assert!(matches!(e(&npy("'<f8'", &[])), VoiceError::NotF32(h) if h == "'<f8'"));
    assert!(matches!(e(&npy("'<f4' 'fortran_order': True", &[])), VoiceError::Fortran));
    let mut ragged = npy("'<f4'", &[1.0]);
    ragged.push(0);
    assert!(matches!(e(&ragged), VoiceError::Ragged));
    assert!(!header_fits(b"\x93NUMPY\x01\x00\x05\x00ab"));
    assert!(!header_fits(b"\x93NUMPY\x02\x00\x00\x00"));
    assert!(header_fits(b"nada"));
    let v2 = b"\x93NUMPY\x02\x00\x05\x00\x00\x00'<f4'\x00\x00\x80\x3f";
    assert_eq!(floats(parse_npy_f32(v2).unwrap()), vec![1.0]);
    assert_eq!(raw_f32_le(&[1, 2, 3, 4]).unwrap(), vec![0x0403_0201]);
    assert!(matches!(raw_f32_le(&[1]), Err(VoiceError::Ragged)));
}

#[test]
fn style_pega_a_linha_certa() {
    let mut data = vec![0f32; STYLE_ROWS * STYLE_DIM];
    for (i, v) in data.iter_mut().enumerate() {
        *v = (i / STYLE_DIM) as f32;
    }
    let bytes: Vec<u8> = data.iter().flat_map(|f| f.to_le_bytes()).collect();
    let files = vec!["zz_test.bin".to_string()];
    assert!(dir_voices(&files).contains(&"zz_test".to_string()));
    let voice = floats(bare_voice(&bytes).unwrap());
    assert_eq!(style(&voice, 7)[0], 7.0);
    assert_eq!(style(&voice, 9999)[0], (STYLE_ROWS - 1) as f32);
    assert_eq!(style(&voice, 0).len(), STYLE_DIM);
    assert!(matches!(bare_voice(&bytes[4..]), Err(VoiceError::Len(130_559))));
    assert_eq!(npy_voice(&npy("'<f4'", &data)).unwrap().len(), data.len());
    assert!(matches!(npy_voice(&npy("'<f4'", &[1.0])), Err(VoiceError::Len(1))));
}

#[test]
fn voices_are_listed_in_order() {
    let names = |v: &[&str]| v.iter().map(|s| s.to_string()).collect::<Vec<_>>();
    let files = names(&["b.bin", "a.bin", "x.txt", ".bin", "é.bin", "a_.v.bin", "bin"]);
    assert_eq!(dir_voices(&files), vec!["a", "a_.v", "b", "é"]);

    let mut buf = Cursor::new(Vec::new());
    {
        let mut w = zip::ZipWriter::new(&mut buf);
        for n in ["pf.npy", "af.npy", "leia.txt"] {
            let stored = zip::write::SimpleFileOptions::default()
                .compression_method(zip::CompressionMethod::Stored);
            w.start_file(n, stored).unwrap();
            w.write_all(n.as_bytes()).unwrap();
        }
        w.finish().unwrap();
    }
    let bytes = buf.into_inner();
    assert_eq!(archive_voices(&bytes).unwrap(), vec!["af", "pf"]);
    assert_eq!(archive_voice(&bytes, "pf").unwrap(), b"pf.npy".to_vec());
    assert!(matches!(archive_voice(&bytes, "x"), Err(VoiceError::Missing)));
    let no_zip = zip::ZipArchive::new(Cursor::new(b"x")).err().unwrap().to_string();
    assert!(matches!(archive_voices(b"x"), Err(VoiceError::Archive(e)) if e == no_zip));
    assert!(matches!(archive_voice(b"x", "pf"), Err(VoiceError::Archive(e)) if e == no_zip));
    let mut broken = bytes.clone();
    let at = broken.windows(12).position(|w| w == b"pf.npypf.npy").unwrap();
    broken[at + 6] = b'x';
    assert!(
        matches!(archive_voice(&broken, "pf"), Err(VoiceError::Unreadable(e)) if e == "Invalid checksum")
    );
    let names: Vec<Option<String>> =
        vec![Some("pf.npy".into()), None, Some("x.txt".into()), Some("af.npy".into())];
    assert_eq!(npz_voices(&names), vec!["af", "pf"]);
    assert!(check_name("af_heart9").is_ok());
    assert!(matches!(check_name("../x"), Err(VoiceError::Name)));
}

#[test]
fn voice_errors_are_told() {
    let t = |e: VoiceError| e.message("zz", "v.npz");
    assert_eq!(t(VoiceError::Name), "nome de voz inválido: zz");
    assert_eq!(t(VoiceError::Archive("causa".into())), "causa");
    assert_eq!(t(VoiceError::Missing), "voz zz não existe em v.npz");
    assert_eq!(t(VoiceError::Unreadable("causa".into())), "causa");
    assert_eq!(t(VoiceError::NotNpy), "não é .npy");
    assert_eq!(t(VoiceError::Version(4)), "versão .npy 4 não suportada");
    assert_eq!(t(VoiceError::Header("causa".into())), "causa");
    assert_eq!(t(VoiceError::NotF32("h".into())), ".npy não é float32 little-endian: h");
    assert_eq!(t(VoiceError::Fortran), ".npy em ordem Fortran não suportado");
    assert_eq!(t(VoiceError::Ragged), "tamanho não múltiplo de 4");
    assert_eq!(t(VoiceError::Len(7)), "voz zz: esperava 130560 floats, veio 7");
}

// ------------------------------------------------------------------------------ config

#[test]
fn settings_have_defaults() {
    let c = Config::new("12345678");
    assert!(c.check().is_ok());
    assert_eq!((c.bind.as_str(), c.threads, c.prefetch, c.max_upload_mb), ("0.0.0.0:8080", 2, 4, 200));
    assert_eq!((c.voice_en.as_str(), c.voice_pt.as_str()), ("af_heart", "pf_dora"));
    assert_eq!(c.ebook_convert, "ebook-convert");
    assert!(c.epubcheck.is_none() && c.pdftotext.is_none());
    assert_eq!(c.model_threads(), 2);
    let short = Config::new("éééé");
    assert_eq!(short.check(), Err("READER_TOKEN precisa ter pelo menos 8 caracteres"));
}
