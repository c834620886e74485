use string_alloc::{AllocStrategy, String};

#[test]
fn scenario_build_hello_world() {
    let mut s = String::from_str_in("hello", AllocStrategy);
    s.push_str(", world");
    s.push('!');
    assert_eq!(s.as_str(), "hello, world!");
}

#[test]
fn scenario_pop_last() {
    let mut s = String::from_str_in("hello", AllocStrategy);
    assert_eq!(s.pop(), Some('o'));
    assert_eq!(s.as_str(), "hell");
}

#[test]
fn scenario_retain_alphabetic() {
    let mut s = String::from_str_in("a1b2c3", AllocStrategy);
    s.retain(|c| c.is_alphabetic());
    assert_eq!(s.as_str(), "abc");
}

#[test]
fn scenario_insert_then_remove() {
    let mut s = String::from_str_in("hello, world", AllocStrategy);
    s.insert(5, '-');
    assert_eq!(s.as_str(), "hello-, world");
    assert_eq!(s.remove(5), '-');
    assert_eq!(s.as_str(), "hello, world");
}

#[test]
fn scenario_invalid_byte_offset() {
    let r = String::from_utf8_in(vec![0x68, 0x69, 0xFF]);
    match r {
        Ok(_) => panic!("bytes with 0xFF must not validate"),
        Err(e) => assert_eq!(e.valid_up_to(), 2),
    }
}

#[test]
fn scenario_split_off_middle() {
    let mut s = String::from_str_in("hello world", AllocStrategy);
    let right = s.split_off(5);
    assert_eq!(s.as_str(), "hello");
    assert_eq!(right.as_str(), " world");
}

#[test]
fn byte_length_accounting() {
    // One character of each encoded width; byte length is the sum of the
    // widths and is at least the character count.
    let s = String::from_str_in("aé中🦀", AllocStrategy);
    assert_eq!(s.len(), 1 + 2 + 3 + 4);
    assert_eq!(s.as_str().chars().count(), 4);
    assert!(s.len() >= s.as_str().chars().count());
}

#[test]
fn push_str_grows_by_exact_byte_length() {
    let mut s = String::from_str_in("início", AllocStrategy);
    let before = s.len();
    let x = "中🦀x";
    s.push_str(x);
    assert_eq!(s.len(), before + x.len());
}

#[test]
fn split_concat_round_trip_every_index() {
    let text = "sörén🦀中x";
    let n = text.chars().count();
    for k in 0..=n {
        let mut s = String::from_str_in(text, AllocStrategy);
        let right = s.split_off(k);
        let mut joined = std::string::String::new();
        joined.push_str(s.as_str());
        joined.push_str(right.as_str());
        assert_eq!(joined, text);
    }
}

#[test]
fn insert_remove_every_index() {
    let text = "aé中🦀";
    let n = text.chars().count();
    for k in 0..=n {
        let mut s = String::from_str_in(text, AllocStrategy);
        s.insert(k, 'ø');
        assert_eq!(s.remove(k), 'ø');
        assert_eq!(s.as_str(), text);
    }
}

#[test]
fn retain_keeps_matching_in_order() {
    let mut s = String::from_str_in("x1é2中3🦀4", AllocStrategy);
    s.retain(|c| !c.is_ascii_digit());
    assert_eq!(s.as_str(), "xé中🦀");
    let mut t = String::from_str_in("abc", AllocStrategy);
    t.retain(|_c| false);
    assert_eq!(t.as_str(), "");
    assert_eq!(t.len(), 0);
}

#[test]
fn reserve_never_decreases_capacity() {
    let mut s = String::from_str_in("hello", AllocStrategy);
    let mut last = s.capacity();
    for extra in [0usize, 10, 3, 100, 0, 7] {
        s.reserve(extra);
        assert!(s.capacity() >= last);
        assert!(s.capacity() >= s.len() + extra);
        last = s.capacity();
    }
    s.shrink_to_fit();
    assert!(s.capacity() >= s.len());
    assert_eq!(s.capacity(), s.len());
    assert_eq!(s.as_str(), "hello");
}

#[test]
fn reserve_exact_no_slack() {
    let mut s = String::from_str_in("hей", AllocStrategy);
    s.shrink_to_fit();
    let len = s.len();
    s.reserve_exact(11);
    assert_eq!(s.capacity(), len + 11);
    // Already-sufficient capacity is kept, and the content is untouched.
    s.reserve_exact(4);
    assert_eq!(s.capacity(), len + 11);
    assert_eq!(s.as_str(), "hей");
}

#[test]
fn truncate_and_clear_multibyte() {
    let mut s = String::from_str_in("aé中🦀tail", AllocStrategy);
    let cap = s.capacity();
    s.truncate(4);
    assert_eq!(s.as_str(), "aé中🦀");
    assert_eq!(s.capacity(), cap);
    s.truncate(2);
    assert_eq!(s.as_str(), "aé");
    s.clear();
    assert_eq!(s.len(), 0);
    assert_eq!(s.as_str(), "");
    assert_eq!(s.capacity(), cap);
}

#[test]
fn equality_ignores_capacity_and_strategy() {
    let a = String::from_str_in("grüße", AllocStrategy);
    let mut b = String::with_capacity_in(1000, AllocStrategy);
    b.push_str("grüße");
    assert_eq!(a, b);
    assert!(a <= b);
    assert!(b <= a);
    let c = String::from_str_in("grüßen", AllocStrategy);
    assert_ne!(a, c);
    assert!(a <= c);
    assert!(!(c <= a));
    assert!(String::from_str_in("abc", AllocStrategy) <= String::from_str_in("abd", AllocStrategy));
}

#[test]
fn validation_error_offsets() {
    // Truncated two-byte sequence at offset 1.
    let r = String::from_utf8_in(vec![b'a', 0xC3]);
    assert_eq!(r.unwrap_err().valid_up_to(), 0x01);
    // Overlong encoding of '/' rejected at its lead byte.
    let r = String::from_utf8_in(vec![0xC0, 0xAF]);
    assert_eq!(r.unwrap_err().valid_up_to(), 0);
    // Surrogate encoding rejected.
    let r = String::from_utf8_in(vec![0xED, 0xA0, 0x80]);
    assert_eq!(r.unwrap_err().valid_up_to(), 0);
    // Bare continuation byte after valid prefix.
    let r = String::from_utf8_in(vec![0xE4, 0xB8, 0xAD, 0x80]);
    assert_eq!(r.unwrap_err().valid_up_to(), 3);
    // Codepoint beyond the Unicode range.
    let r = String::from_utf8_in(vec![0xF4, 0x90, 0x80, 0x80]);
    assert_eq!(r.unwrap_err().valid_up_to(), 0);
    // Valid multibyte text passes.
    let ok = String::from_utf8_in("中🦀é".as_bytes().to_vec());
    assert_eq!(ok.unwrap().as_str(), "中🦀é");
}

#[test]
fn bytes_round_trips() {
    let s = String::from_str_in("aé中🦀", AllocStrategy);
    let bytes = s.clone().into_bytes();
    assert_eq!(bytes, "aé中🦀".as_bytes());
    let back = String::from_utf8_in(bytes).unwrap();
    assert_eq!(back.as_str(), "aé中🦀");
    let trusted = String::from_utf8_unchecked_in("aé中🦀".as_bytes().to_vec());
    assert_eq!(trusted.as_str(), "aé中🦀");
    assert_eq!(s.as_bytes(), "aé中🦀".as_bytes());
}

#[test]
fn translator_scans() {
    let bytes = "aé中🦀".as_bytes().to_vec();
    assert_eq!(string_alloc::translate::char_count(&bytes), 4);
    assert_eq!(string_alloc::translate::byte_pos_of(&bytes, 0), 0);
    assert_eq!(string_alloc::translate::byte_pos_of(&bytes, 1), 1);
    assert_eq!(string_alloc::translate::byte_pos_of(&bytes, 2), 3);
    assert_eq!(string_alloc::translate::byte_pos_of(&bytes, 3), 6);
    assert_eq!(string_alloc::translate::byte_pos_of(&bytes, 4), 10);
    assert_eq!(string_alloc::translate::last_char_start(&bytes), 6);
    assert_eq!(string_alloc::translate::validate(&bytes), None);
    assert_eq!(string_alloc::translate::validate(&vec![0x61, 0xC0, 0xAF]), Some(1));
}

/// Byte offset of character ordinal `i` in `s`, for driving the reference
/// implementation, which addresses by byte.
fn byte_idx(s: &str, i: usize) -> usize {
    s.char_indices().nth(i).map(|(b, _)| b).unwrap_or(s.len())
}

#[test]
fn operation_sequences_keep_bytes_valid() {
    // A deterministic pseudo-random walk over the public operations,
    // mirrored against the standard library's string; after every step the
    // stored bytes must still decode as valid UTF-8 and match the mirror.
    let palette = ['a', 'Z', '0', 'é', 'ß', '中', '🦀', '\u{7f}', '\u{800}', '\u{ffff}'];
    let mut rng: u64 = 0x243F6A8885A308D3;
    let mut s = String::new_in(AllocStrategy);
    let mut mirror = std::string::String::new();
    for _step in 0..2000 {
        rng = rng.wrapping_mul(6364136223846793005).wrapping_add(1442695040888963407);
        let roll = (rng >> 33) as usize;
        let count = mirror.chars().count();
        match roll % 8 {
            0 => {
                let c = palette[roll / 8 % palette.len()];
                s.push(c);
                mirror.push(c);
            }
            1 => {
                let frag = ["", "ab", "é中", "🦀!", "x"][roll / 8 % 5];
                s.push_str(frag);
                mirror.push_str(frag);
            }
            2 => {
                assert_eq!(s.pop(), mirror.pop());
            }
            3 => {
                let i = roll / 8 % (count + 1);
                let c = palette[roll / 80 % palette.len()];
                s.insert(i, c);
                mirror.insert(byte_idx(&mirror, i), c);
            }
            4 => {
                if count > 0 {
                    let i = roll / 8 % count;
                    assert_eq!(s.remove(i), mirror.remove(byte_idx(&mirror, i)));
                }
            }
            5 => {
                let i = roll / 8 % (count + 1);
                s.truncate(i);
                let b = byte_idx(&mirror, i);
                mirror.truncate(b);
            }
            6 => {
                let i = roll / 8 % (count + 1);
                let tail = s.split_off(i);
                let b = byte_idx(&mirror, i);
                let mirror_tail = mirror.split_off(b);
                assert_eq!(tail.as_str(), &mirror_tail);
                // Reattach so the walk keeps its material.
                s.push_str(tail.as_str());
                mirror.push_str(&mirror_tail);
            }
            _ => {
                if roll % 97 == 0 {
                    s.retain(|c| !c.is_ascii_digit());
                    mirror.retain(|c| !c.is_ascii_digit());
                }
                s.reserve(roll / 8 % 32);
                if roll % 13 == 0 {
                    s.shrink_to_fit();
                }
            }
        }
        assert!(std::str::from_utf8(s.as_bytes()).is_ok());
        assert_eq!(s.as_str(), &mirror);
        assert_eq!(s.len(), mirror.len());
        assert!(s.capacity() >= s.len());
        if mirror.len() > 400 {
            s.truncate(0);
            mirror.clear();
        }
    }
}

#[test]
fn to_string_in_copies_content() {
    let s = String::from_str_in("copie détachée", AllocStrategy);
    let t = s.to_string_in();
    assert_eq!(t.as_str(), "copie détachée");
    assert_eq!(s, t);
}
