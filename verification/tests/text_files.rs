use mx_engine::export::{
    download, download_qwen, download_tinyllama, download_wikitext2, download_wikitext2_calib,
    path_join, Page, PageError,
};
use mx_engine::text::{is_blank, join3, parse_usize, push_decimal, str_eq};

#[test]
fn paths_are_joined() {
    assert_eq!(path_join("models", "gpt2.bin"), "models/gpt2.bin");
    assert_eq!(path_join("models/", "gpt2.bin"), "models/gpt2.bin");
    assert_eq!(path_join("", "gpt2.bin"), "gpt2.bin");
    assert_eq!(path_join("models", "/abs"), "/abs");
}

#[test]
fn downloads_list_their_files() {
    let v = download("models");
    let got: Vec<(&str, &str)> = v.iter().map(|f| (f.url.as_str(), f.dst.as_str())).collect();
    let base = "https://huggingface.co/openai-community/gpt2/resolve/main";
    assert_eq!(got.len(), 3);
    assert_eq!(got[0], (format!("{base}/model.safetensors").as_str(), "models/model.safetensors"));
    assert_eq!(got[1], (format!("{base}/vocab.json").as_str(), "models/vocab.json"));
    assert_eq!(got[2], (format!("{base}/merges.txt").as_str(), "models/merges.txt"));
    let q = download_qwen("m");
    assert_eq!(q[2].url, "https://huggingface.co/Qwen/Qwen2.5-0.5B/resolve/main/merges.txt");
    let t = download_tinyllama("m");
    assert_eq!(t.len(), 2);
    assert_eq!(
        t[1].url,
        "https://huggingface.co/TinyLlama/TinyLlama-1.1B-intermediate-step-1431k-3T/resolve/main/tokenizer.json"
    );
    assert_eq!(t[1].dst, "m/tokenizer.json");
}

#[test]
fn corpora_have_their_splits() {
    let c = download_wikitext2("models");
    assert_eq!(c.out_file, "models/wikitext-2-raw/wiki.test.raw");
    assert_eq!(
        c.page_url(),
        "https://datasets-server.huggingface.co/rows?dataset=Salesforce/wikitext&config=wikitext-2-raw-v1&split=test&offset=0&length=100"
    );
    assert_eq!(c.page_path(), "models/wikitext-2-raw/page-test-0.json");
    let v = download_wikitext2_calib("models");
    assert_eq!(v.out_file, "models/wikitext-2-raw/wiki.calib.raw");
    assert_eq!(v.split, "validation");
}

#[test]
fn pages_grow_the_corpus() {
    let mut c = download_wikitext2("d");
    let first = br#"{"rows":[{"row":{"text":"one"}},{"row":{"text":"two\n"}}],"num_rows_total":3}"#;
    assert_eq!(c.read_page(first), Ok(false));
    assert_eq!((c.text.as_str(), c.offset), ("one\ntwo\n", 2));
    assert_eq!(
        c.page_url(),
        "https://datasets-server.huggingface.co/rows?dataset=Salesforce/wikitext&config=wikitext-2-raw-v1&split=test&offset=2&length=100"
    );
    assert_eq!(c.page_path(), "d/wikitext-2-raw/page-test-2.json");
    assert_eq!(c.read_page(br#"{"rows":[{"row":{"text":""}}],"num_rows_total":3}"#), Ok(true));
    assert_eq!((c.text.as_str(), c.offset), ("one\ntwo\n\n", 3));
    // an empty page ends the corpus, whatever the total
    assert_eq!(c.read_page(br#"{"rows":[]}"#), Ok(true));
}

#[test]
fn refused_pages_change_nothing() {
    let mut c = download_wikitext2("d");
    assert_eq!(c.read_page(b"not json"), Err(PageError::NotJson));
    assert_eq!(c.read_page(br#"{"rows":7}"#), Err(PageError::NoRows));
    assert_eq!(
        c.read_page(br#"{"rows":[{"row":{"text":"a"}},{"row":{}}],"num_rows_total":5}"#),
        Err(PageError::RowNotText(1))
    );
    assert_eq!(c.read_page(br#"{"rows":[{"row":{"text":"a"}}]}"#), Err(PageError::NoTotal));
    assert_eq!((c.text.as_str(), c.offset), ("", 0));
    c.offset = usize::MAX;
    let page = Page { rows: Some(vec![Some("x".to_string())]), total: Some(9) };
    assert_eq!(c.take_page(&page), Err(PageError::TooManyRows));
}

#[test]
fn paging_makes_no_difference() {
    let rows = ["a", "b\n", "", "c"];
    let page = |r: &[&str]| Page {
        rows: Some(r.iter().map(|s| Some(s.to_string())).collect()),
        total: Some(100),
    };
    let mut one = download_wikitext2("d");
    one.take_page(&page(&rows)).unwrap();
    let mut two = download_wikitext2("d");
    two.take_page(&page(&rows[..1])).unwrap();
    two.take_page(&page(&rows[1..])).unwrap();
    assert_eq!((one.text.as_str(), one.offset), (two.text.as_str(), two.offset));
    assert_eq!(one.text, "a\nb\n\nc\n");
}

#[test]
fn numerals_are_read_and_written() {
    for n in [0usize, 7, 10, 1234567, usize::MAX] {
        let mut s = String::from("n=");
        push_decimal(&mut s, n);
        assert_eq!(s, format!("n={n}"));
        assert_eq!(parse_usize(&s[2..]), Some(n));
    }
    assert_eq!(parse_usize("+5"), Some(5));
    assert_eq!(parse_usize("007"), Some(7));
    for bad in ["", "+", "-1", "1a", " 1", "18446744073709551616", "99999999999999999999999"] {
        assert_eq!(parse_usize(bad), None, "{bad:?}");
    }
}

#[test]
fn texts_are_compared() {
    assert!(str_eq("naïve", "naïve") && !str_eq("a", "b") && !str_eq("a", "ab"));
    assert!(is_blank("") && is_blank(" \t\n\u{2003}") && !is_blank("  x "));
    assert_eq!(join3("a", "-", "b"), "a-b");
}
