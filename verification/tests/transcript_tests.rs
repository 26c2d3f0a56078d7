use gkr::field::FieldElement;
use gkr::transcript::HashTrait;
use gkr::transcript::KeccakWrapper;
use gkr::transcript::Transcript;

// Keccak-256 of the empty string.
fn keccak_of_nothing() -> Vec<u8> {
    vec![
        0xc5, 0xd2, 0x46, 0x01, 0x86, 0xf7, 0x23, 0x3c, 0x92, 0x7e, 0x7d, 0xb2, 0xdc, 0xc7, 0x03,
        0xc0, 0xe5, 0x00, 0xb6, 0x53, 0xca, 0x82, 0x27, 0x3b, 0x7b, 0xfa, 0xd8, 0x04, 0x5d, 0x85,
        0xa4, 0x70,
    ]
}

#[test]
fn transcript_test_transcript() {
    let mut transcript = Transcript::new(KeccakWrapper::new());
    let data = "hello world".as_bytes();
    let _data2 = b"hello world";
    transcript.absorb(data);
    let output = transcript.squeeze();
    println!("output: {:?}", output);
}

#[test]
fn main_test_transcript() {
    let mut transcript = Transcript::new(KeccakWrapper::new());
    let data = "hello world".as_bytes();
    let _data2 = b"hello world";
    transcript.absorb(data);
    let output = transcript.squeeze();
    println!("output: {:?}", output);
}

#[test]
fn test_fiat_shamir() {
    let mut transcript = Transcript::new(KeccakWrapper::new());

    // Simulate a prover's commitment
    let commitment = b"prover_commitment";
    transcript.absorb(commitment);

    // Generate a Fiat-Shamir challenge
    let challenge = transcript.generate_challenge();
    println!("Fiat-Shamir Challenge: {:?}", challenge);

    // Simulate a prover's response
    let response = b"prover_response";
    transcript.absorb(response);

    // Generate another challenge if needed
    let challenge2 = transcript.generate_challenge();
    println!("Fiat-Shamir Challenge 2: {:?}", challenge2);
    assert_ne!(challenge, challenge2);
}

#[test]
fn the_hash_is_keccak_256() {
    let hasher = KeccakWrapper::new();
    assert_eq!(hasher.generate_hash(), keccak_of_nothing());
    let mut fed = KeccakWrapper::new();
    fed.append(b"abc");
    assert_eq!(
        fed.generate_hash(),
        vec![
            0x4e, 0x03, 0x65, 0x7a, 0xea, 0x45, 0xa9, 0x4f, 0xc7, 0xd4, 0x7b, 0xa8, 0x26, 0xc8,
            0xd6, 0x67, 0xc0, 0xd1, 0xe6, 0xe3, 0x3a, 0x64, 0xa0, 0x36, 0xec, 0x44, 0xf5, 0x8f,
            0xa1, 0x2d, 0x6c, 0x45,
        ]
    );
    fed.reset();
    assert_eq!(fed.generate_hash(), keccak_of_nothing());
}

#[test]
fn append_in_parts_is_append_at_once() {
    let mut parts = KeccakWrapper::new();
    parts.append(b"hello ");
    parts.append(b"world");
    let mut whole = KeccakWrapper::new();
    whole.append(b"hello world");
    assert_eq!(parts.generate_hash(), whole.generate_hash());
}

#[test]
fn squeeze_is_the_digest_reduced() {
    let mut transcript = Transcript::new(KeccakWrapper::new());
    let first = transcript.squeeze();
    assert_eq!(first, FieldElement::from_be_bytes_mod_order(&keccak_of_nothing()));
}

#[test]
fn squeezes_without_absorbing_differ() {
    let mut transcript = Transcript::new(KeccakWrapper::new());
    transcript.absorb(b"seed");
    let first = transcript.squeeze();
    let second = transcript.squeeze();
    let third = transcript.squeeze();
    assert_ne!(first, second);
    assert_ne!(second, third);
    assert_ne!(first, third);
}

#[test]
fn squeeze_leaves_the_digest_in_the_transcript() {
    let mut transcript = Transcript::new(KeccakWrapper::new());
    transcript.absorb(b"seed");
    let digest = transcript.sample_challenge();
    // A transcript fed the digest gives what the first gives next.
    let mut other = Transcript::new(KeccakWrapper::new());
    other.absorb(&digest);
    assert_eq!(transcript.squeeze(), other.squeeze());
}

#[test]
fn the_same_bytes_give_the_same_challenges() {
    let mut prover = Transcript::new(KeccakWrapper::new());
    let mut verifier = Transcript::new(KeccakWrapper::new());
    prover.absorb(b"one");
    prover.append(b"two");
    verifier.append(b"onetwo");
    assert_eq!(prover.sample_field_element(), verifier.sample_element());
    assert_eq!(prover.sample_n_field_elements(3), verifier.sample_n_field_elements(3));
    prover.absorb(b"x");
    verifier.absorb(b"y");
    assert_ne!(prover.squeeze(), verifier.squeeze());
}

#[test]
fn sample_n_is_n_squeezes() {
    let mut many = Transcript::new(KeccakWrapper::new());
    let mut single = Transcript::new(KeccakWrapper::new());
    many.absorb(b"seed");
    single.absorb(b"seed");
    let elements = many.sample_n_field_elements(4);
    assert_eq!(elements.len(), 4);
    for e in elements {
        assert_eq!(e, single.squeeze());
    }
    assert_eq!(many.sample_n_field_elements(0), vec![]);
}
