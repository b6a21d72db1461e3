use hpke::rand_core::RngCore;
use hpke_demo::rng::{
    delivered, drawn_u32, drawn_u64, le_u32, le_u64, random_bytes, reported, Drawn, OsRng, RngError,
};

#[test]
fn little_endian() {
    assert_eq!(le_u32([0x78, 0x56, 0x34, 0x12]), 0x12345678);
    assert_eq!(le_u32([0xff; 4]), u32::MAX);
    assert_eq!(le_u64([8, 7, 6, 5, 4, 3, 2, 1]), 0x0102030405060708);
    assert_eq!(le_u64([0xff; 8]), u64::MAX);
}

#[test]
fn random_bytes_differ() {
    assert_eq!(random_bytes::<0>(), Ok([]));
    assert_ne!(random_bytes::<32>().unwrap(), random_bytes::<32>().unwrap());
    assert_ne!(random_bytes::<32>().unwrap(), [0; 32]);
}

#[test]
fn os_rng() {
    let mut rng = OsRng;
    let mut bytes = [0u8; 40];
    rng.fill_bytes(&mut bytes).unwrap();
    assert_ne!(bytes, [0; 40]);
    rng.fill_bytes(&mut []).unwrap();
    let a: Vec<u64> = (0..4).map(|_| rng.next_u64().unwrap()).collect();
    assert!(a.iter().any(|n| *n != a[0]));
    let b: Vec<u32> = (0..8).map(|_| rng.next_u32().unwrap()).collect();
    assert!(b.iter().any(|n| *n != b[0]));
    assert_eq!(RngError.message(), "OS RNG failure");
}

#[test]
fn drawn_bytes_are_used_in_order() {
    let mut bytes = [0u8; 32];
    for i in 0..32 {
        bytes[i] = i as u8 + 1;
    }
    let mut all = [0u8; 32];
    Drawn::new(bytes).fill_bytes(&mut all);
    assert_eq!(all, bytes);
    let mut rng = Drawn::new(bytes);
    assert_eq!(rng.next_u32(), 0x04030201);
    assert_eq!(rng.next_u64(), 0x0c0b0a0908070605);
    let mut rest = [9u8; 22];
    rng.fill_bytes(&mut rest);
    assert_eq!(rest[..20], bytes[12..]);
    assert_eq!(rest[20..], [0, 0]);
}

#[test]
fn outcomes_of_a_draw() {
    assert_eq!(reported(Ok(())), Ok(()));
    assert_eq!(reported(Err(getrandom::Error::UNSUPPORTED)), Err(RngError));
    assert_eq!(delivered(Ok(()), [1, 2, 3]), Ok([1, 2, 3]));
    assert_eq!(delivered(Err(RngError), [1, 2, 3]), Err(RngError));
    assert_eq!(drawn_u32(Ok([1, 2, 0, 0])), Ok(513));
    assert_eq!(drawn_u32(Err(RngError)), Err(RngError));
    assert_eq!(drawn_u64(Ok([0, 0, 0, 0, 0, 0, 0, 1])), Ok(1 << 56));
    assert_eq!(drawn_u64(Err(RngError)), Err(RngError));
}
