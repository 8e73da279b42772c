use substitution::decrypt;
use substitution::decrypt_with_budget;
use substitution::encrypt;
use substitution::split_words;
use substitution::Error;

fn dict_lines(s: &str) -> Vec<Vec<u8>> {
    s.lines().map(|l| l.as_bytes().to_vec()).collect()
}

fn to_string(v: Vec<u8>) -> String {
    String::from_utf8(v).unwrap()
}

#[test]
fn decrypt_hello_world() {
    let input: String = "Hello world!".into();
    let encrypted = encrypt(input.as_bytes());
    let decrypted = decrypt(encrypted.as_slice(), &dict_lines("hello\nworld\n")).unwrap();
    assert_eq!(&to_string(decrypted), "hello world");
}

#[test]
fn decrypt_hello_world_with_red_herrings() {
    let input: String = "  Hello    world! ".into();
    let encrypted = encrypt(input.as_bytes());
    let decrypted = decrypt(
        encrypted.as_slice(),
        &dict_lines("hello\nworld\nword\nhell\nhey\nwonderful\nforth\nnewly\nbytes\ninput\n"),
    )
    .unwrap();
    assert_eq!(&to_string(decrypted), "  hello    world ");
}

#[test]
fn decrypt_3_words() {
    let input: String = "Hello all worlds!".into();
    let encrypted = encrypt(input.as_bytes());
    let decrypted = decrypt(
        encrypted.as_slice(),
        &dict_lines(
            "hello\nworld\nword\nhell\nhey\nwonderful\nforth\nnewly\nbytes\ninput\nall\nali\nworlds\n",
        ),
    )
    .unwrap();
    assert_eq!(&to_string(decrypted), "hello all worlds");
}

#[test]
fn decrypt_10_simple_words() {
    let input: String = "HHHH aaa aaaaa ii ttt uuuuuu aaa gggggg tt yyy".into();
    let encrypted = encrypt(input.as_bytes());
    let decrypted = decrypt(
        encrypted.as_slice(),
        &dict_lines("hhhh\naaa\nii\nttt\nuuuuuu\ngggggg\ntt\nyyy\n"),
    )
    .unwrap();
    // Nine of the ten words are in the dictionary and the tenth fits the
    // skip budget of one, so the search succeeds.  The encryption key is
    // random and several keys decipher consistently with this dictionary,
    // so the outcome to check is the shape: ten words of the original
    // lengths, at most one of them outside the dictionary.
    let text = to_string(decrypted);
    let words: Vec<&str> = text.split(' ').collect();
    assert_eq!(
        words.iter().map(|w| w.len()).collect::<Vec<usize>>(),
        vec![4, 3, 5, 2, 3, 6, 3, 6, 2, 3]
    );
    let dict = ["hhhh", "aaa", "ii", "ttt", "uuuuuu", "gggggg", "tt", "yyy"];
    let misses = words.iter().filter(|w| !dict.iter().any(|d| d == *w)).count();
    assert!(misses <= 1);
}

#[test]
fn decrypt_empty_input() {
    let r = decrypt(b"", &Vec::new()).unwrap();
    assert_eq!(r, Vec::new());
}

#[test]
fn decrypt_whitespace_only_passes_through() {
    let r = decrypt(b"  \t ", &Vec::new()).unwrap();
    assert_eq!(r, b"  \t ".to_vec());
}

#[test]
fn decrypt_exhausted_on_empty_dictionary() {
    let r = decrypt(b"abc", &Vec::new());
    assert!(matches!(r, Err(Error::SearchExhausted)));
}

#[test]
fn decrypt_budget_zero_fails_where_budget_one_skips() {
    let dict = dict_lines("aa\n");
    let r0 = decrypt_with_budget(b"aa bcd", &dict, 0);
    assert!(matches!(r0, Err(Error::SearchExhausted)));
    let r1 = decrypt_with_budget(b"aa bcd", &dict, 1).unwrap();
    assert_eq!(r1.len(), 6);
}

#[test]
fn split_words_drops_whitespace() {
    let ws = split_words(&b"  ab  cd ".to_vec());
    assert_eq!(ws, vec![b"ab".to_vec(), b"cd".to_vec()]);
}
