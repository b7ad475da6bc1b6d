use learning_simd::base64::{
    decode_chunk_branched, decode_chunk_simd_elegant, decode_pack, decoded_len, in_range,
    masked_splat, unb64_nonsimd, unb64_nonsimd_cachelines, unb64_simd_elegant, B64Error,
};

type Fun = fn(&[u8], &mut Vec<u8>) -> Result<(), B64Error>;
const FUNS: &[(&str, Fun)] = &[
    ("unb64_nonsimd", unb64_nonsimd),
    ("unb64_nonsimd_cachelines", unb64_nonsimd_cachelines),
    ("unb64_simd_elegant", unb64_simd_elegant),
];

const ALPHABET: &[u8] = b"ABCDEFGHIJKLMNOPQRSTUVWXYZabcdefghijklmnopqrstuvwxyz0123456789+/";

/// Standard base64 encoding with padding.
fn encode(src: &[u8]) -> Vec<u8> {
    let mut out = Vec::new();
    for chunk in src.chunks(3) {
        let b0 = chunk[0] as u32;
        let b1 = if chunk.len() > 1 { chunk[1] as u32 } else { 0 };
        let b2 = if chunk.len() > 2 { chunk[2] as u32 } else { 0 };
        let w = (b0 << 16) | (b1 << 8) | b2;
        out.push(ALPHABET[((w >> 18) & 63) as usize]);
        out.push(ALPHABET[((w >> 12) & 63) as usize]);
        out.push(if chunk.len() > 1 { ALPHABET[((w >> 6) & 63) as usize] } else { b'=' });
        out.push(if chunk.len() > 2 { ALPHABET[(w & 63) as usize] } else { b'=' });
    }
    out
}

/// Deterministic pseudo-random bytes.
fn source_bytes(len: usize) -> Vec<u8> {
    let mut state: u32 = 0x1234_5678;
    (0..len)
        .map(|_| {
            state = state.wrapping_mul(1_664_525).wrapping_add(1_013_904_223);
            (state >> 24) as u8
        })
        .collect()
}

#[test]
fn test_unb64() {
    for len in [0usize, 1, 2, 3, 47, 48, 49, 50, 95, 96, 1000, 4096, 4097, 4098] {
        let source = source_bytes(len);
        let b64 = encode(&source);
        let cap = decoded_len(b64.len());
        for (name, fun) in FUNS {
            let mut out = Vec::with_capacity(cap);
            let () = fun(&b64, &mut out).unwrap();
            assert!(out.len() <= cap, "in fun {name}");
            assert_eq!(&out, &source, "in fun {name}");
        }
    }
}

#[test]
fn test_unb64_wrong_input() {
    let b64 = [b'!'; 1000];
    let mut out = Vec::new();
    for (name, fun) in FUNS {
        assert!(fun(&b64, &mut out).is_err(), "in fun {name}");
    }
}

#[test]
fn test_chunks() {
    let mut n: u32 = 0;
    loop {
        let ascii = n.to_le_bytes();
        let ([a0, a1, a2], ok1) = decode_chunk_branched(ascii);
        let (simd, ok2) = decode_chunk_simd_elegant(&ascii);
        let [b0, b1, b2] = decode_pack([simd[0], simd[1], simd[2], simd[3]]);
        if ok1 {
            assert!(ok2, "n={n}");
            assert_eq!([b0, b1, b2], [a0, a1, a2], "n={n}");
        } else {
            assert!(!ok2, "n={n}");
        }
        match n.checked_add(7919) {
            Some(m) => n = m,
            None => break,
        }
    }
}

#[test]
fn test_chunks_alphabet() {
    for &c0 in ALPHABET {
        for &c1 in ALPHABET {
            for &c2 in [b'A', b'z', b'0', b'+', b'/', b'=', b'!'].iter() {
                let ascii = [c0, c1, c2, b'Q'];
                let (a, ok1) = decode_chunk_branched(ascii);
                let (simd, ok2) = decode_chunk_simd_elegant(&ascii);
                assert_eq!(ok1, ok2);
                if ok1 {
                    assert_eq!(decode_pack([simd[0], simd[1], simd[2], simd[3]]), a);
                }
            }
        }
    }
}

#[test]
fn test_known_strings() {
    let cases: [(&[u8], &[u8]); 6] = [
        (b"aGVsbG8=", b"hello"),
        (b"aGVsbA==", b"hell"),
        (b"aGVs", b"hel"),
        (b"TWFu", b"Man"),
        (b"", b""),
        (b"TWE", b"Ma"),
    ];
    for (b64, plain) in cases {
        for (name, fun) in FUNS {
            let mut out = Vec::new();
            assert!(fun(b64, &mut out).is_ok(), "in fun {name}");
            assert_eq!(&out[..], plain, "in fun {name}");
        }
    }
}

#[test]
fn test_appends_to_existing_output() {
    for (name, fun) in FUNS {
        let mut out = vec![1u8, 2, 3];
        fun(b"TWFu", &mut out).unwrap();
        assert_eq!(out, vec![1, 2, 3, b'M', b'a', b'n'], "in fun {name}");
    }
}

#[test]
fn test_single_char_chunk() {
    // A last chunk of one character decodes to one byte: its six bits, shifted up.
    for (name, fun) in FUNS {
        let mut out = Vec::new();
        fun(b"TWFuT", &mut out).unwrap();
        assert_eq!(out, vec![b'M', b'a', b'n', 19 << 2], "in fun {name}");
    }
}

#[test]
fn test_error_keeps_chunks_before() {
    let mut out = Vec::new();
    assert!(unb64_nonsimd(b"aGVs!AAAaGVs", &mut out).is_err());
    assert_eq!(out, b"hel".to_vec());

    let mut out = Vec::new();
    assert!(unb64_nonsimd(b"aGVsbG8=aGVs", &mut out).is_err());
    assert_eq!(out, b"hel".to_vec());

    let mut out = Vec::new();
    assert!(unb64_nonsimd_cachelines(b"aGVs!AAAaGVs", &mut out).is_err());
    assert_eq!(out, b"hel".to_vec());

    let mut out = Vec::new();
    assert!(unb64_simd_elegant(b"aGVs!AAAaGVs", &mut out).is_err());
    assert_eq!(out, b"hel".to_vec());
}

#[test]
fn test_error_in_whole_lines_decodes_them() {
    // 64 bytes with one bad byte, then a good chunk: the line is decoded anyway.
    let mut b64 = vec![b'A'; 64];
    b64[5] = b'!';
    b64.extend_from_slice(b"TWFu");
    let mut out = Vec::new();
    assert!(unb64_nonsimd_cachelines(&b64, &mut out).is_err());
    assert_eq!(out.len(), 48 + 3);
    assert_eq!(&out[48..], b"Man");

    let mut out = Vec::new();
    assert!(unb64_simd_elegant(&b64, &mut out).is_err());
    assert_eq!(out.len(), 48 + 3);
    assert_eq!(&out[48..], b"Man");

    let mut out = Vec::new();
    assert!(unb64_nonsimd(&b64, &mut out).is_err());
    assert_eq!(out, vec![0u8; 3]);
}

#[test]
fn test_padding_rules() {
    for (name, fun) in FUNS {
        let mut out = Vec::new();
        // Only one `==` is dropped: a third `=` is outside the alphabet.
        assert!(fun(b"TQ===", &mut out).is_err(), "in fun {name}");
        let mut out = Vec::new();
        // Padding in the middle is outside the alphabet.
        assert!(fun(b"TQ==TWFu", &mut out).is_err(), "in fun {name}");
    }
}

#[test]
fn test_decoded_len() {
    assert_eq!(decoded_len(0), 0);
    assert_eq!(decoded_len(1), 1);
    assert_eq!(decoded_len(2), 1);
    assert_eq!(decoded_len(3), 2);
    assert_eq!(decoded_len(4), 3);
    assert_eq!(decoded_len(7), 5);
    assert_eq!(decoded_len(8), 6);
}

#[test]
fn test_lane_helpers() {
    let bytes = [b'A', b'M', b'Z', b'a', b'[', b'@'];
    assert_eq!(in_range(&bytes, b'A', b'Z'), vec![true, true, true, false, false, false]);
    assert_eq!(masked_splat(&[true, false, true], 7), vec![7, 0, 7]);
    let (sextets, ok) = decode_chunk_simd_elegant(b"Az09+/");
    assert!(ok);
    assert_eq!(sextets, vec![0, 51, 52, 61, 62, 63]);
    let (sextets, ok) = decode_chunk_simd_elegant(b"A!");
    assert!(!ok);
    assert_eq!(sextets, vec![0, b'!']);
}

#[test]
fn test_decode_chunk_branched_invalid() {
    // An invalid byte has the sextet 255, or-ed into the word.
    let (bytes, ok) = decode_chunk_branched(*b"!AAA");
    assert!(!ok);
    let w: u32 = 255 << 18;
    assert_eq!(bytes, [(w >> 16) as u8, (w >> 8) as u8, w as u8]);
}
