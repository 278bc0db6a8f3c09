use std::collections::HashMap;
use std::io::{BufRead, BufReader, Error, ErrorKind, Read};

use env_overrides::{
    add_override_path, get_bool, get_os, scan_source, Cache, Decoding, Registry, Source,
};

/// A lookup written the plain way, over a hash map and the line reader of the
/// standard library.
fn plain_lookup(
    cache: &mut HashMap<Vec<u8>, Option<Vec<u8>>>,
    name: &[u8],
    variable: Option<&[u8]>,
    files: &[Option<Vec<u8>>],
) -> Option<Vec<u8>> {
    if let Some(value) = cache.get(name) {
        return value.clone();
    }
    if let Some(value) = variable {
        cache.insert(name.to_vec(), Some(value.to_vec()));
        return Some(value.to_vec());
    }
    for file in files {
        let text = match file {
            Some(text) => text,
            None => continue,
        };
        for line in BufRead::split(&text[..], b'\n') {
            let line = line.unwrap();
            let at = match line.iter().position(|byte| *byte == b'=') {
                Some(at) => at,
                None => continue,
            };
            let key = line[..at].to_vec();
            let value = line[at + 1..].to_vec();
            cache.insert(key, if value.is_empty() { None } else { Some(value) });
            if let Some(value) = cache.get(name) {
                return value.clone();
            }
        }
    }
    cache.insert(name.to_vec(), None);
    None
}

/// A small generator of numbers that gives the same run every time.
struct Dice(u64);

impl Dice {
    fn roll(&mut self, sides: u64) -> u64 {
        self.0 = self.0.wrapping_mul(6364136223846793005).wrapping_add(1442695040888963407);
        (self.0 >> 33) % sides
    }

    fn bytes(&mut self, longest: u64) -> Vec<u8> {
        let letters = b"AB=\n=\nC ";
        let len = self.roll(longest + 1);
        (0..len).map(|_| letters[self.roll(letters.len() as u64) as usize]).collect()
    }

    fn name(&mut self) -> Vec<u8> {
        let letters = b"ABC ";
        let len = self.roll(3);
        (0..len).map(|_| letters[self.roll(letters.len() as u64) as usize]).collect()
    }
}

#[test]
fn lookups_agree_with_the_plain_way() {
    let mut dice = Dice(7);
    for _ in 0..300 {
        let count = dice.roll(4) as usize;
        let mut cache = Cache::new();
        let mut registry = Registry::new();
        for i in 0..count {
            add_override_path(&mut registry, &mut cache, format!("/{}.env", i).as_bytes());
        }
        let texts: Vec<Option<Vec<u8>>> = (0..count)
            .map(|_| if dice.roll(5) == 0 { None } else { Some(dice.bytes(24)) })
            .collect();
        let files: Vec<Source> = texts
            .iter()
            .map(|text| match text {
                Some(text) => Source::Whole(text.clone()),
                None => Source::Missing,
            })
            .collect();
        let mut plain = HashMap::new();
        for _ in 0..6 {
            let name = dice.name();
            let variable = if dice.roll(4) == 0 { Some(dice.name()) } else { None };
            let expected = plain_lookup(&mut plain, &name, variable.as_deref(), &texts);
            let value =
                get_os(&mut cache, &registry, Decoding::Native, &name, variable.as_deref(), &files);
            assert_eq!(value, expected, "name {:?} in {:?}", name, texts);
            for (key, kept) in plain.iter() {
                assert_eq!(cache.get(key), Some(kept.clone()), "key {:?} in {:?}", key, texts);
            }
            for probe in [&b"A"[..], b"B", b"C", b"", b"AB", b"BA", b" ", b"A "] {
                assert_eq!(cache.get(probe), plain.get(probe).cloned());
            }
        }
    }
}

#[test]
fn text_files_are_read_alike_under_both_decodings() {
    let mut dice = Dice(11);
    for _ in 0..200 {
        let text = dice.bytes(40);
        let files = vec![Source::Whole(text.clone())];
        let name = dice.name();
        let mut native = Cache::new();
        let mut strict = Cache::new();
        let mut registry = Registry::new();
        add_override_path(&mut registry, &mut native, b"/a.env");
        let one = get_os(&mut native, &registry, Decoding::Native, &name, None, &files);
        let other = get_os(&mut strict, &registry, Decoding::Utf8, &name, None, &files);
        assert_eq!(one, other, "name {:?} in {:?}", name, text);
    }
}

#[test]
fn switches_agree_with_the_plain_way() {
    let words: [&[u8]; 14] = [
        b"off", b"OFF", b"FALSE", b"false", b"0", b"on", b"ON", b"TRUE", b"true", b"1", b"maybe",
        b"", b"oN", b"tRUE",
    ];
    for word in words {
        let mut text = b"FLAG=".to_vec();
        text.extend_from_slice(word);
        text.push(b'\n');
        let mut cache = Cache::new();
        let mut registry = Registry::new();
        add_override_path(&mut registry, &mut cache, b"/a.env");
        let files = vec![Source::Whole(text)];
        let expected = match word {
            b"off" | b"OFF" | b"FALSE" | b"false" | b"0" => Some(false),
            b"on" | b"ON" | b"TRUE" | b"true" | b"1" => Some(true),
            _ => None,
        };
        assert_eq!(
            get_bool(&mut cache, &registry, Decoding::Native, b"FLAG", None, &files),
            expected
        );
    }
}

/// A reader that hands out its bytes a few at a time and then fails.
struct Failing {
    bytes: Vec<u8>,
    read: usize,
    step: usize,
}

impl Read for Failing {
    fn read(&mut self, buffer: &mut [u8]) -> Result<usize, Error> {
        let left = self.bytes.len() - self.read;
        if left == 0 {
            return Err(Error::new(ErrorKind::Other, "the read failed"));
        }
        let count = left.min(self.step).min(buffer.len());
        buffer[..count].copy_from_slice(&self.bytes[self.read..self.read + count]);
        self.read += count;
        Ok(count)
    }
}

#[test]
fn a_failed_read_gives_the_lines_that_the_line_reader_gives() {
    let mut dice = Dice(23);
    for _ in 0..300 {
        let bytes = dice.bytes(40);
        let step = 1 + dice.roll(7) as usize;

        let mut plain = HashMap::new();
        let reader = BufReader::new(Failing { bytes: bytes.clone(), read: 0, step });
        for line in reader.split(b'\n') {
            let line = match line {
                Ok(line) => line,
                Err(_) => break,
            };
            if let Some(at) = line.iter().position(|byte| *byte == b'=') {
                let value = line[at + 1..].to_vec();
                plain.insert(line[..at].to_vec(), if value.is_empty() { None } else { Some(value) });
            }
        }

        let mut text = Vec::new();
        let mut reader = Failing { bytes: bytes.clone(), read: 0, step };
        assert!(reader.read_to_end(&mut text).is_err());
        let mut cache = Cache::new();
        assert!(!scan_source(&mut cache, Decoding::Native, b"no such name", &Source::Partial(text)));
        for (key, kept) in plain.iter() {
            assert_eq!(cache.get(key), Some(kept.clone()), "key {:?} in {:?}", key, bytes);
        }
        for probe in [&b"A"[..], b"B", b"C", b"", b"AB", b"BA", b" ", b"A "] {
            assert_eq!(cache.get(probe), plain.get(probe).cloned(), "in {:?}", bytes);
        }
    }
}
