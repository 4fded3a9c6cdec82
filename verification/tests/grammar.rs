use os_dev_specs::parse::{parse_id_line, parse_page_entry};
use regex::Regex;

struct Lcg(u64);

impl Lcg {
    fn next(&mut self) -> u64 {
        self.0 = self.0.wrapping_mul(6364136223846793005).wrapping_add(1442695040888963407);
        self.0 >> 33
    }
}

fn generate(rng: &mut Lcg, tokens: &[&str], max_tokens: u64) -> String {
    let n = rng.next() % (max_tokens + 1);
    let mut s = String::new();
    for _ in 0..n {
        s.push_str(tokens[(rng.next() % tokens.len() as u64) as usize]);
    }
    s
}

#[test]
fn id_lines_agree_with_the_regex_crate() {
    let re = Regex::new(r"#\s*`([0-9a-z_]+)`").unwrap();
    let tokens = [
        "#", " ", "\t", "\u{3000}", "\u{85}", "`", "a", "z", "Z", "0", "9", "_", "-", "\n", "é", "# `",
    ];
    let mut rng = Lcg(7);
    for _ in 0..200_000 {
        let line = generate(&mut rng, &tokens, 10);
        let expected = re
            .captures(&line)
            .map(|c| c.get(1).unwrap().as_str().to_string());
        assert_eq!(parse_id_line(&line).ok(), expected, "line: {:?}", line);
    }
}

#[test]
fn page_lines_agree_with_the_regex_crate() {
    let re = Regex::new(r"^-\s*p\.([0-9]+):(.*)$").unwrap();
    let tokens = [
        "-", " ", "\t", "p", ".", "p.", "- p.", "0", "1", "9", ":", "x", " y ", "\n", "\u{a0}",
        "99999999999",
    ];
    let mut rng = Lcg(11);
    for _ in 0..200_000 {
        let line = generate(&mut rng, &tokens, 10);
        match re.captures(&line) {
            Some(c) => match c.get(1).unwrap().as_str().parse::<u64>() {
                Ok(page) => {
                    let e = parse_page_entry(&line).unwrap();
                    assert_eq!(e.page, page, "line: {:?}", line);
                    assert_eq!(e.description, c.get(2).unwrap().as_str().trim(), "line: {:?}", line);
                }
                // a page number beyond u64 is outside what the reader accepts
                Err(_) => {}
            },
            None => assert!(parse_page_entry(&line).is_err(), "line: {:?}", line),
        }
    }
}
