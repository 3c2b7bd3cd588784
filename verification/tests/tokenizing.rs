use mx_engine::marks::{is_marked, mark_table};
use mx_engine::pretoken::{pretokenize, split, Props};
use mx_engine::tokenizer::{bytes_to_unicode, char_to_byte, lines, Tokenizer, TokenizerError};

fn pieces(s: &str) -> Vec<String> {
    pretokenize(s)
}

#[test]
fn words_keep_their_space() {
    assert_eq!(pieces("Hello world"), vec!["Hello", " world"]);
    assert_eq!(pieces("a1 22b"), vec!["a", "1", " 22", "b"]);
    assert_eq!(pieces("Wait, what?!"), vec!["Wait", ",", " what", "?!"]);
    assert_eq!(pieces(""), Vec::<String>::new());
}

#[test]
fn contractions_are_split_off() {
    assert_eq!(pieces("don't"), vec!["don", "'t"]);
    assert_eq!(pieces("we'll they've I'm he'd you're it's"), vec![
        "we", "'ll", " they", "'ve", " I", "'m", " he", "'d", " you", "'re", " it", "'s",
    ]);
    // no contraction: the apostrophe is punctuation
    assert_eq!(pieces("rock 'n"), vec!["rock", " '", "n"]);
    assert_eq!(pieces("x'q"), vec!["x", "'", "q"]);
    // inside a run of punctuation an apostrophe starts nothing
    assert_eq!(pieces("!'s"), vec!["!'", "s"]);
}

#[test]
fn whitespace_leaves_one_for_the_next_word() {
    assert_eq!(pieces("a   b"), vec!["a", "  ", " b"]);
    assert_eq!(pieces("a\n\nb"), vec!["a", "\n", "\n", "b"]);
    assert_eq!(pieces("a \n"), vec!["a", " \n"]);
    assert_eq!(pieces("\tb"), vec!["\t", "b"]);
    assert_eq!(pieces("  "), vec!["  "]);
}

#[test]
fn unicode_classes_are_asked() {
    assert_eq!(pieces("Größe ½x"), vec!["Größe", " ½", "x"]);
    assert_eq!(pieces("a\u{2003}b"), vec!["a", "\u{2003}", "b"]);
}

#[test]
fn only_letters_are_letters() {
    // a letter number is a number
    assert_eq!(pieces("a\u{2167}7"), vec!["a", "\u{2167}7"]);
    // marks and enclosed letters are neither, though some are alphabetic
    assert_eq!(pieces("\u{928}\u{93e}\u{92e}"), vec!["\u{928}", "\u{93e}", "\u{92e}"]);
    assert_eq!(pieces("e\u{301}"), vec!["e", "\u{301}"]);
    assert_eq!(pieces("a \u{24d0}\u{1f130}b"), vec!["a", " \u{24d0}\u{1f130}", "b"]);
    assert!('\u{93e}'.is_alphabetic() && '\u{24d0}'.is_alphabetic() && '\u{2167}'.is_alphabetic());
    // letters without case, and modifier letters
    assert_eq!(pieces("\u{aa}\u{2b0}\u{5d0}\u{3042}\u{ac00}x"), vec!["\u{aa}\u{2b0}\u{5d0}\u{3042}\u{ac00}x"]);
}

#[test]
fn stretches_of_marks_are_in_order() {
    let t = mark_table();
    assert_eq!(t.len() % 2, 0);
    for k in 0..t.len() / 2 {
        assert!(t[2 * k] <= t[2 * k + 1]);
        assert!(k == 0 || t[2 * k - 1] < t[2 * k]);
    }
    assert_eq!((t[0], t[1]), ('\u{300}', '\u{36f}'));
    assert_eq!((t[t.len() - 2], t[t.len() - 1]), ('\u{e0100}', '\u{e01ef}'));
    for c in ['a', 'Z', '\u{e9}', '\u{3b1}', '\u{4e00}', '\u{904}', '7', ' '] {
        assert!(!is_marked(&t, c));
    }
    for c in ['\u{300}', '\u{320}', '\u{36f}', '\u{24b6}', '\u{1f189}'] {
        assert!(is_marked(&t, c));
    }
}

#[test]
fn pieces_put_together_are_the_text_again() {
    for s in ["It's 3 o'clock, isn't it?!", "  \n x\t\ty ", "''''s", "日本語 text 99%"] {
        assert_eq!(pieces(s).concat(), s);
        assert!(pieces(s).iter().all(|p| !p.is_empty()));
    }
}

#[test]
fn splitting_goes_by_the_given_properties() {
    let p = |letter: bool, digit: bool, space: bool| Props { letter, digit, space };
    // 'a' taken for a digit, 'b' for a letter
    let out = split(&['a', 'a', 'b'], &[p(false, true, false), p(false, true, false), p(true, false, false)]);
    assert_eq!(out, vec!["aa", "b"]);
    let out = split(&['a', 'b'], &[p(false, false, true), p(true, false, false)]);
    assert_eq!(out, vec!["a", "b"]);
}

#[test]
fn bytes_have_characters_of_their_own() {
    let t = bytes_to_unicode();
    assert_eq!(t.len(), 256);
    assert_eq!(t[b'A' as usize], 'A');
    assert_eq!(t[b' ' as usize], 'Ġ');
    assert_eq!(t[b'\n' as usize], 'Ċ');
    assert_eq!(t[0], 'Ā');
    assert_eq!(t[173] as u32, 323);
    for b in 0..=255u8 {
        assert_eq!(char_to_byte(t[b as usize]), Some(b));
    }
    assert_eq!(char_to_byte('語'), None);
    assert_eq!(char_to_byte(' '), None);
}

#[test]
fn lines_end_at_newlines() {
    assert_eq!(lines("a\nb\r\n\nc"), vec!["a", "b", "", "c"]);
    assert_eq!(lines(""), Vec::<String>::new());
    assert_eq!(lines("a\n"), vec!["a"]);
}

const MERGES: &str = "#version: 0.2\nh e\nl l\nhe ll\nĠ w\n\nhell o\n";

fn vocab() -> Vec<(String, u32)> {
    let mut v: Vec<(String, u32)> = Vec::new();
    for (i, c) in bytes_to_unicode().iter().enumerate() {
        v.push((c.to_string(), i as u32));
    }
    for (i, s) in ["he", "ll", "hell", "Ġw", "hello"].iter().enumerate() {
        v.push((s.to_string(), 256 + i as u32));
    }
    v
}

fn vocab_json() -> String {
    let mut s = String::from("{");
    for (i, (t, id)) in vocab().iter().enumerate() {
        if i > 0 {
            s.push(',');
        }
        let esc = t.replace('\\', "\\\\").replace('"', "\\\"");
        s.push_str(&format!("\"{esc}\":{id}"));
    }
    s.push('}');
    s
}

#[test]
fn merges_go_by_rank() {
    let t = Tokenizer::from_parts(vocab(), MERGES).unwrap();
    assert_eq!(t.bpe("hello"), vec!["hello"]);
    assert_eq!(t.bpe("hell"), vec!["hell"]);
    assert_eq!(t.bpe("lllo"), vec!["ll", "l", "o"]);
    assert_eq!(t.bpe("xyz"), vec!["x", "y", "z"]);
    assert_eq!(t.bpe(""), Vec::<String>::new());
}

#[test]
fn encoding_and_decoding() {
    let t = Tokenizer::load(&vocab_json(), MERGES).unwrap();
    let ids = t.try_encode("hello world").unwrap();
    assert_eq!(ids[0], 260);
    assert_eq!(ids[1], 259);
    assert_eq!(ids[2], 'o' as u32);
    assert_eq!(t.encode("hello world"), ids);
    assert_eq!(t.decode(&ids), "hello world");
}

#[test]
fn decoding_undoes_encoding_on_any_text() {
    let t = Tokenizer::load(&vocab_json(), MERGES).unwrap();
    for s in ["", "hello  hello\n", "Größe — 日本語 'll", "\u{0}\u{7f}\u{ad}"] {
        let ids = t.try_encode(s).unwrap();
        assert_eq!(t.decode(&ids), s);
    }
}

#[test]
fn unknown_ids_and_broken_bytes_decode() {
    let t = Tokenizer::load(&vocab_json(), MERGES).unwrap();
    assert_eq!(t.decode(&[9999]), "");
    // half of a two-byte character
    assert_eq!(t.decode(&[0xc3]), "\u{fffd}");
    assert_eq!(t.decode(&[0xc3, 0xa9]), "é");
    assert_eq!(t.decode(&[260, 9999, 'x' as u32]), "hellox");
}

#[test]
fn pieces_outside_the_vocabulary_are_named() {
    let t = Tokenizer::load("{\"a\":0}", "#v\n").unwrap();
    assert_eq!(t.try_encode("aa"), Ok(vec![0, 0]));
    assert_eq!(t.try_encode("ab"), Err("b".to_string()));
    assert_eq!(t.look_up(&vec!["a".to_string(), "zz".to_string()]), Err("zz".to_string()));
}

#[test]
fn broken_tokenizer_files_are_refused() {
    assert!(matches!(Tokenizer::load("[1]", "#v\n"), Err(TokenizerError::BadVocab)));
    assert!(matches!(Tokenizer::load("{\"a\":-1}", "#v\n"), Err(TokenizerError::BadVocab)));
    assert!(matches!(Tokenizer::load("{}", "#v\na b\nbroken\n"), Err(TokenizerError::BadMerge(_))));
}
