use protohackers::cipher::{
    cipher_is_noop, decrypt_at, encrypt_at, new_ISL, parse_cipher, reverse_bits, CipherError,
    CipherOperation,
};

#[test]
fn reverse_bits_is_the_one_of_the_machine() {
    for b in 0..=255u8 {
        assert_eq!(reverse_bits(b), b.reverse_bits());
    }
    assert_eq!(reverse_bits(0b0000_0001), 0b1000_0000);
    assert_eq!(reverse_bits(0b0110_1000), 0b0001_0110);
}

#[test]
fn definition_is_read_up_to_its_end() {
    assert_eq!(
        parse_cipher(&[2, 1, 1, 0]),
        Ok((vec![CipherOperation::XOR(1), CipherOperation::ReverseBits], 4))
    );
    assert_eq!(
        parse_cipher(&[5, 5, 0, 9, 9]),
        Ok((vec![CipherOperation::AddPos, CipherOperation::AddPos], 3))
    );
    assert_eq!(
        parse_cipher(&[2, 0, 4, 0, 3, 0]),
        Ok((
            vec![CipherOperation::XOR(0), CipherOperation::Add(0), CipherOperation::XORPos],
            6
        ))
    );
    assert_eq!(parse_cipher(&[0]), Ok((Vec::new(), 1)));
}

#[test]
fn definition_errors() {
    assert_eq!(parse_cipher(&[]), Err(CipherError::Incomplete));
    assert_eq!(parse_cipher(&[1, 3]), Err(CipherError::Incomplete));
    assert_eq!(parse_cipher(&[2]), Err(CipherError::Incomplete));
    assert_eq!(parse_cipher(&[4, 0]), Err(CipherError::Incomplete));
    assert_eq!(parse_cipher(&[1, 6, 0]), Err(CipherError::InvalidOperation(6)));
    assert_eq!(parse_cipher(&[255]), Err(CipherError::InvalidOperation(255)));
}

#[test]
fn xor_one_then_reverse_bits_encrypts_hello() {
    let (_, mut writer) = new_ISL(&[2, 1, 1, 0]).unwrap();
    assert_eq!(writer.encrypt(b"hello"), vec![0x96, 0x26, 0xb6, 0xb6, 0x76]);
    assert_eq!(writer.counter(), 5);
}

#[test]
fn add_position_twice_encrypts_hello() {
    let (mut reader, mut writer) = new_ISL(&[5, 5, 0]).unwrap();
    let secret = writer.encrypt(b"hello");
    assert_eq!(secret, vec![0x68, 0x67, 0x70, 0x72, 0x77]);
    assert_eq!(reader.decrypt(&secret), b"hello".to_vec());
    assert_eq!(reader.counter(), 5);
}

#[test]
fn single_bytes_use_the_current_position() {
    let (mut reader, mut writer) = new_ISL(&[3, 4, 7, 0]).unwrap();
    assert_eq!(writer.encrypt_byte(0x10), 0x17);
    assert_eq!(reader.decrypt_byte(0x17), 0x10);
    writer.encrypt(&[0, 0, 0]);
    reader.decrypt(&[0, 0, 0]);
    assert_eq!(writer.encrypt_byte(0x10), (0x10 ^ 3) + 7);
    assert_eq!(reader.decrypt_byte((0x10 ^ 3) + 7), 0x10);
}

#[test]
fn decrypt_undoes_encrypt_at_every_position() {
    let cipher = vec![
        CipherOperation::Add(200),
        CipherOperation::XORPos,
        CipherOperation::ReverseBits,
        CipherOperation::AddPos,
        CipherOperation::XOR(0xa5),
    ];
    for pos in 0..=255u8 {
        for byte in 0..=255u8 {
            let secret = encrypt_at(&cipher, pos, byte);
            assert_eq!(decrypt_at(&cipher, pos, secret), byte);
        }
    }
    assert_eq!(encrypt_at(&cipher, 3, 100), {
        let a = 100u8.wrapping_add(200);
        let b = a ^ 3;
        let c = b.reverse_bits();
        let d = c.wrapping_add(3);
        d ^ 0xa5
    });
}

#[test]
fn counter_wraps_and_rewinds() {
    let (mut reader, mut writer) = new_ISL(&[5, 0]).unwrap();
    let data = vec![0u8; 300];
    let secret = writer.encrypt(&data);
    assert_eq!(writer.counter(), 44);
    for (i, b) in secret.iter().enumerate() {
        assert_eq!(*b, (i % 256) as u8);
    }
    assert_eq!(reader.decrypt(&secret), data);
    assert_eq!(reader.counter(), 44);
    writer.rewind(50);
    assert_eq!(writer.counter(), 250);
    writer.rewind(256 + 250);
    assert_eq!(writer.counter(), 0);
    writer.rewind(0);
    assert_eq!(writer.counter(), 0);
}

#[test]
fn ciphers_that_change_nothing_are_refused() {
    let noops: Vec<Vec<u8>> = vec![
        vec![0],
        vec![2, 0, 0],
        vec![2, 0xab, 2, 0xab, 0],
        vec![1, 1, 0],
        vec![2, 0xa0, 2, 0x0b, 2, 0xab, 0],
        vec![4, 0, 0],
        vec![4, 128, 4, 128, 0],
    ];
    for definition in noops {
        assert!(matches!(new_ISL(&definition), Err(CipherError::NoOp)), "{:?}", definition);
    }
    assert!(cipher_is_noop(&Vec::new()));
    assert!(!cipher_is_noop(&vec![CipherOperation::XORPos]));
    assert!(!cipher_is_noop(&vec![CipherOperation::ReverseBits]));
}

#[test]
fn bad_definitions_give_their_error() {
    assert!(matches!(new_ISL(&[]), Err(CipherError::Incomplete)));
    assert!(matches!(new_ISL(&[1, 2]), Err(CipherError::Incomplete)));
    assert!(matches!(new_ISL(&[1, 9, 0]), Err(CipherError::InvalidOperation(9))));
}
