use learning_simd::count_spaces::{
    count_spaces_simd_novec, count_spaces_simd_novec_x8, count_spaces_simd_portable_256,
    count_spaces_simd_portable_512, count_spaces_std, pad_bytes,
};

fn long_input() -> Vec<u8> {
    let mut v = Vec::new();
    for i in 0..3000u32 {
        if i % 7 == 0 || i % 11 == 3 {
            v.push(b' ');
        } else {
            v.push(b'0' + (i % 10) as u8);
        }
    }
    v.push(b'\n');
    v.extend_from_slice(b"1 2 3 after the line\n");
    v
}

#[test]
fn all_of_them() {
    type Fn = fn(&[u8]) -> u16;

    let long = long_input();
    let inputs: [&[u8]; 14] = [
        b"\n",
        b"123\n",
        b"123456\n",
        b"1234567812345678123456781234567\n",
        b"123456781234567812345678123456789\n",
        b"1234567812345678123456781234567891\n",
        b"12345678123456781234567812345678912\n",
        b"1 2\n",
        b"1 2 3\n",
        b"1 2 3 4\n",
        b"1 2 3 4 5\n",
        b"1 2 3 4 5 6\n",
        b"1 2 3 4 5 6 7\n",
        &long,
    ];
    let inputs = inputs.map(pad_bytes);

    let expected_outputs = inputs.map(count_spaces_std);

    let fns: [(&str, Fn); 4] = [
        ("count_spaces_simd_novec", count_spaces_simd_novec),
        ("count_spaces_simd_novec_x8", count_spaces_simd_novec_x8),
        ("count_spaces_simd_portable_256", count_spaces_simd_portable_256),
        ("count_spaces_simd_portable_512", count_spaces_simd_portable_512),
    ];

    for (repr, f) in fns {
        for (i, (&input, expected_output)) in inputs.iter().zip(expected_outputs).enumerate() {
            let output = f(input);
            assert_eq!(output, expected_output, "For function {repr} at input #{i:?}");
        }
    }
}

#[test]
fn test_count_spaces_std_values() {
    assert_eq!(count_spaces_std(b"\n"), 0);
    assert_eq!(count_spaces_std(b"1 2 3\n 4 5"), 2);
    assert_eq!(count_spaces_std(b"   \n"), 3);
    let mut many = vec![b' '; 70_000];
    many.push(b'\n');
    assert_eq!(count_spaces_std(&many), (70_000u32 % 65_536) as u16);
}

#[test]
fn test_known_counts() {
    let padded = pad_bytes(b"1 2 3 4 5 6 7\n");
    assert_eq!(count_spaces_simd_novec(padded), 6);
    assert_eq!(count_spaces_simd_novec_x8(padded), 6);
    assert_eq!(count_spaces_simd_portable_256(padded), 6);
    assert_eq!(count_spaces_simd_portable_512(padded), 6);
    let long = long_input();
    let expected = long.iter().take_while(|c| **c != b'\n').filter(|c| **c == b' ').count() as u16;
    let padded = pad_bytes(&long);
    assert_eq!(count_spaces_simd_novec(padded), expected);
    assert_eq!(count_spaces_simd_portable_256(padded), expected);
}

#[test]
fn test_newline_in_second_half() {
    // The newline lies in the second 32 lanes: spaces of the first half count.
    let mut line = vec![b' '; 40];
    line[3] = b'7';
    line.push(b'\n');
    let padded = pad_bytes(&line);
    assert_eq!(count_spaces_simd_portable_256(padded), 39);
    assert_eq!(count_spaces_simd_portable_512(padded), 39);
    assert_eq!(count_spaces_simd_novec(padded), 39);
    assert_eq!(count_spaces_simd_novec_x8(padded), 39);
}

#[test]
fn test_pad_bytes() {
    let padded = pad_bytes(b"12\n");
    assert_eq!(padded.len(), 3 + 128);
    assert_eq!(&padded[..3], b"12\n");
    assert_eq!(&padded[3..13], b"1 2 3 4 5 ");
    assert!(padded[13..].iter().all(|c| *c == b'1'));
}
