use dms_email_client::translate::{
    assemble, nllb_source, plan, requests, resolve_source_lang, source_lang_of,
    translate_chunked, translate_prose, translate_text_preserving_codes, Part, Translator,
    MAX_TRANSLATE_CHARS,
};

struct MockTranslator;

impl Translator for MockTranslator {
    fn translate(&self, text: &str, _src: &str, _tgt: &str) -> Result<String, String> {
        Ok(format!("<译>{text}</译>"))
    }
}

#[test]
fn keeps_urls_and_codes_untranslated() {
    let plain = "Click https://gog.com/deal now. Code 482913 expires.";
    let out = translate_prose(&MockTranslator, plain, "eng_Latn", "zho_Hans").unwrap();
    assert!(out.contains("https://gog.com/deal"), "url mangled: {out}");
    assert!(out.contains("482913"), "code mangled: {out}");
    assert!(out.contains("<译>"), "prose not translated: {out}");
    assert!(!out.contains("<译>https"), "url got translated: {out}");
}

#[test]
fn empty_and_url_only() {
    assert_eq!(translate_prose(&MockTranslator, "", "eng_Latn", "zho_Hans").unwrap(), "");
    let only = translate_prose(&MockTranslator, "https://a.com/x", "eng_Latn", "zho_Hans").unwrap();
    assert_eq!(only, "https://a.com/x");
}

struct DigitMangler;

impl Translator for DigitMangler {
    fn translate(&self, text: &str, _src: &str, _tgt: &str) -> Result<String, String> {
        Ok(text.chars().map(|c| if c.is_ascii_digit() { '9' } else { c }).collect())
    }
}

#[test]
fn digit_mangling_translator_still_preserves_codes() {
    let plain = "Your code 482913 expires soon.";
    let out = translate_prose(&DigitMangler, plain, "eng_Latn", "zho_Hans").unwrap();
    assert!(out.contains("482913"), "4-8 digit code was sent to translator and mangled: {out}");
}

struct DigitManglerTrackWhitespaceCalls {
    whitespace_calls: std::cell::Cell<u32>,
}

impl Translator for DigitManglerTrackWhitespaceCalls {
    fn translate(&self, text: &str, src: &str, tgt: &str) -> Result<String, String> {
        if text.trim().is_empty() {
            self.whitespace_calls.set(self.whitespace_calls.get() + 1);
        }
        DigitMangler.translate(text, src, tgt)
    }
}

#[test]
fn two_adjacent_codes_stay_separated() {
    let plain = "Codes 482913 123456 end.";
    let tracker = DigitManglerTrackWhitespaceCalls { whitespace_calls: std::cell::Cell::new(0) };
    let out = translate_prose(&tracker, plain, "eng_Latn", "zho_Hans").unwrap();
    assert!(out.contains("482913"), "first code mangled/lost: {out}");
    assert!(out.contains("123456"), "second code mangled/lost: {out}");
    assert!(out.contains("482913 123456"), "codes got merged or separator corrupted: {out}");
    assert_eq!(
        tracker.whitespace_calls.get(),
        0,
        "whitespace-only inter-code gap must not be routed through translate()"
    );
}

#[test]
fn long_prose_is_fully_translated_not_truncated() {
    let mut long = String::new();
    for i in 1..=60 {
        long.push_str(&format!("Line {i}: some sentence about email translation testing.\n"));
    }
    assert!(
        long.chars().count() > MAX_TRANSLATE_CHARS,
        "test fixture not long enough: {} chars",
        long.chars().count()
    );

    let out = translate_chunked(&MockTranslator, &long, "eng_Latn", "zho_Hans").unwrap();
    assert!(out.contains("Line 1:"), "first line missing from output (truncated?): {out}");
    assert!(out.contains("Line 60:"), "last line missing from output (truncated?): {out}");
    assert!(out.contains("<译>"), "content not routed through translator: {out}");

    let short = "Hello, this is a short sentence.";
    let short_out = translate_chunked(&MockTranslator, short, "eng_Latn", "zho_Hans").unwrap();
    assert_eq!(
        short_out,
        format!("<译>{short}</译>"),
        "short text should go through as a single translate call: {short_out}"
    );
}

#[test]
fn explicit_source_is_passthrough() {
    assert_eq!(resolve_source_lang("rus_Cyrl", "irrelevant"), "rus_Cyrl");
}

#[test]
fn auto_detects_common_langs() {
    assert_eq!(
        resolve_source_lang("auto", "This is clearly an English sentence about email."),
        "eng_Latn"
    );
    assert_eq!(
        resolve_source_lang("auto", "Это предложение на русском языке для проверки."),
        "rus_Cyrl"
    );
    assert_eq!(resolve_source_lang("auto", "12345 !!! ???"), "eng_Latn");
}

#[test]
fn detected_languages_have_codes() {
    for (iso, code) in [
        ("eng", "eng_Latn"),
        ("cmn", "zho_Hans"),
        ("rus", "rus_Cyrl"),
        ("jpn", "jpn_Jpan"),
        ("kor", "kor_Hang"),
        ("fra", "fra_Latn"),
        ("deu", "deu_Latn"),
        ("spa", "spa_Latn"),
        ("por", "por_Latn"),
        ("ita", "ita_Latn"),
        ("epo", "eng_Latn"),
    ] {
        assert_eq!(source_lang_of(Some((iso.to_string(), true))), code);
        assert_eq!(source_lang_of(Some((iso.to_string(), false))), "eng_Latn");
    }
    assert_eq!(source_lang_of(None), "eng_Latn");
}

/// Gives back what it is sent, and keeps a record of it.
struct Echo {
    asked: std::cell::RefCell<Vec<String>>,
}

impl Translator for Echo {
    fn translate(&self, text: &str, _src: &str, _tgt: &str) -> Result<String, String> {
        self.asked.borrow_mut().push(text.to_string());
        Ok(text.to_string())
    }
}

fn echo() -> Echo {
    Echo { asked: std::cell::RefCell::new(Vec::new()) }
}

#[test]
fn an_echo_changes_nothing() {
    for s in ["", " \n ", "a", "see <https://a.b/c> and 1234\n\n bye", "12345 12345"] {
        assert_eq!(translate_prose(&echo(), s, "a", "b").unwrap(), s);
    }
}

#[test]
fn an_echo_of_a_long_text_changes_nothing() {
    let a = |n: usize| "a".repeat(n);
    for text in [
        format!("\n{}", a(1200)),
        format!("{}\n\nz", a(1300)),
        format!("{}\n\n{}\nz\n", a(700), a(700)),
        format!("\n\n{}\n\n\n{}\n \n", a(1200), a(1200)),
        format!("{}\n", a(1200)),
        "\n".repeat(1300),
    ] {
        assert_eq!(translate_chunked(&echo(), &text, "x", "y").unwrap(), text);
        assert_eq!(translate_prose(&echo(), &text, "x", "y").unwrap(), text);
    }
}

#[test]
fn only_prose_is_sent() {
    let t = echo();
    translate_prose(&t, "see <https://a.b/c> and 1234\n http://x.y", "a", "b").unwrap();
    assert_eq!(*t.asked.borrow(), vec!["see ".to_string(), " and ".to_string()]);
}

/// Fails on what holds a given word.
struct FailsOn(&'static str);

impl Translator for FailsOn {
    fn translate(&self, text: &str, _src: &str, _tgt: &str) -> Result<String, String> {
        if text.contains(self.0) {
            Err(format!("no: {text}"))
        } else {
            Ok(String::new())
        }
    }
}

#[test]
fn the_first_failure_decides() {
    let out = translate_prose(&FailsOn("b"), "a 1234 b 5678 bb", "x", "y");
    assert_eq!(out, Err("no:  b ".to_string()));
    assert_eq!(translate_prose(&FailsOn("z"), "a 1234 b", "x", "y"), Ok("1234".to_string()));
    assert_eq!(translate_chunked(&FailsOn("a"), "a", "x", "y"), Err("no: a".to_string()));
}

#[test]
fn a_text_without_links_keeps_its_codes() {
    let out = translate_text_preserving_codes(&MockTranslator, "x 1234 y", "a", "b").unwrap();
    assert_eq!(out, "<译>x </译>1234<译> y</译>");
}

fn asked(text: &str) -> Vec<String> {
    let t = echo();
    translate_chunked(&t, text, "x", "y").unwrap();
    let asked = t.asked.borrow().clone();
    asked
}

#[test]
fn lines_are_packed_into_batches() {
    let line = |c: &str, n: usize| c.repeat(n);
    let text = format!("{}\n{}\n{}", line("a", 600), line("b", 599), line("c", 5));
    assert_eq!(
        asked(&text),
        vec![format!("{}\n{}", line("a", 600), line("b", 599)), line("c", 5)]
    );

    let text = format!("{}\n{}", line("a", 600), line("b", 600));
    assert_eq!(asked(&text), vec![line("a", 600), line("b", 600)]);

    let whole = line("a", 1200);
    assert_eq!(asked(&whole), vec![whole]);
    assert_eq!(asked(""), vec![""]);
}

#[test]
fn every_batch_but_an_empty_one_is_sent() {
    let a = "a".repeat(1300);
    assert_eq!(
        asked(&format!("\n\n{a}\n\nz")),
        vec!["\n".to_string(), a.clone(), "\nz".to_string()]
    );
    assert_eq!(asked(&format!("{a}\n \n{a}")), vec![a.clone(), " ".to_string(), a.clone()]);
    assert_eq!(
        asked(&format!("{}\n   ", "a".repeat(1200))),
        vec!["a".repeat(1200), "   ".to_string()]
    );
    assert_eq!(asked(&format!("\n{}", "a".repeat(1200))), vec!["a".repeat(1200)]);
}

#[test]
fn parts_and_replies_are_put_together() {
    let parts = plan("a 1234 b");
    assert_eq!(parts.len(), 3);
    assert!(matches!(&parts[1], Part::Keep(k) if k == "1234"));
    assert_eq!(requests(&parts), vec!["a ".to_string(), " b".to_string()]);
    let out = assemble(&parts, &["X".to_string(), "Y".to_string()]);
    assert_eq!(out, "X1234Y");
}

#[test]
fn the_model_gets_its_language_token() {
    assert_eq!(nllb_source("Hello.", "eng_Latn"), "Hello. </s> eng_Latn");
}
