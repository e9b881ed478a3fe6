use curve25519_dalek::RistrettoPoint;
use curve25519_dalek::Scalar;
use rand_chacha::ChaCha12Rng;
use rand_core::CryptoRngCore;
use rand_core::SeedableRng;
use triptych::params::Parameters;
use triptych::proofs::Proof;
use triptych::proofs::ProofError;
use triptych::statement::InputSet;
use triptych::statement::Statement;
use triptych::witness::Witness;

// Generate a witness and corresponding statement
#[allow(non_snake_case)]
fn generate_data<R: CryptoRngCore>(n: u32, m: u32, rng: &mut R) -> (Witness, Statement) {
    // Generate parameters
    let params = Parameters::new(n, m).unwrap();

    // Generate witness
    let witness = Witness::random(&params, rng);

    // Generate input set
    let M = (0..params.get_N())
        .map(|i| {
            if i == witness.get_l() {
                witness.compute_verification_key()
            } else {
                RistrettoPoint::random(rng)
            }
        })
        .collect::<Vec<RistrettoPoint>>();
    let input_set = InputSet::new(&M);

    // Generate statement
    let J = witness.compute_linking_tag();
    let statement = Statement::new(&params, &input_set, &J).unwrap();

    (witness, statement)
}

// Generate a batch of witnesses with adjacent indexes sharing one input set
#[allow(non_snake_case)]
fn generate_batch_data<R: CryptoRngCore>(
    n: u32,
    m: u32,
    b: usize,
    rng: &mut R,
) -> (Vec<Witness>, Vec<Statement>) {
    let params = Parameters::new(n, m).unwrap();
    assert!(b <= params.get_N() as usize);
    let mut witnesses = Vec::with_capacity(b);
    witnesses.push(Witness::random(&params, rng));
    for _ in 1..b {
        let r = Scalar::random(rng);
        let l = (witnesses.last().unwrap().get_l() + 1) % params.get_N();
        witnesses.push(Witness::new(&params, l, &r).unwrap());
    }

    let mut M = (0..params.get_N())
        .map(|_| RistrettoPoint::random(rng))
        .collect::<Vec<RistrettoPoint>>();
    for witness in &witnesses {
        M[witness.get_l() as usize] = witness.compute_verification_key();
    }
    let input_set = InputSet::new(&M);

    let mut statements = Vec::with_capacity(b);
    for witness in &witnesses {
        let J = witness.compute_linking_tag();
        statements.push(Statement::new(&params, &input_set, &J).unwrap());
    }

    (witnesses, statements)
}

#[test]
#[allow(non_snake_case)]
#[allow(non_upper_case_globals)]
fn test_prove_verify() {
    // Generate data
    const n: u32 = 2;
    const m: u32 = 4;
    let mut rng = ChaCha12Rng::seed_from_u64(8675309);
    let (witness, statement) = generate_data(n, m, &mut rng);

    // Generate and verify a proof
    let message = "Proof messsage".as_bytes();
    let proof = Proof::prove(&witness, &statement, Some(message), &mut rng).unwrap();
    assert!(proof.verify(&statement, Some(message), &mut rng));
}

#[test]
#[allow(non_snake_case)]
#[allow(non_upper_case_globals)]
fn test_evil_message() {
    // Generate data
    const n: u32 = 2;
    const m: u32 = 4;
    let mut rng = ChaCha12Rng::seed_from_u64(8675309);
    let (witness, statement) = generate_data(n, m, &mut rng);

    // Generate a proof
    let message = "Proof messsage".as_bytes();
    let proof = Proof::prove(&witness, &statement, Some(message), &mut rng).unwrap();

    // Attempt to verify the proof against a different message, which should fail
    let evil_message = "Evil proof message".as_bytes();
    assert!(!proof.verify(&statement, Some(evil_message), &mut rng));
}

#[test]
#[allow(non_snake_case)]
#[allow(non_upper_case_globals)]
fn test_evil_input_set() {
    // Generate data
    const n: u32 = 2;
    const m: u32 = 4;
    let mut rng = ChaCha12Rng::seed_from_u64(8675309);
    let (witness, statement) = generate_data(n, m, &mut rng);

    // Generate a proof
    let message = "Proof messsage".as_bytes();
    let proof = Proof::prove(&witness, &statement, Some(message), &mut rng).unwrap();

    // Generate a statement with a modified input set
    let mut M = statement.get_input_set().get_keys().clone();
    let index = ((witness.get_l() + 1) % witness.get_params().get_N()) as usize;
    M[index] = RistrettoPoint::random(&mut rng);
    let evil_input_set = InputSet::new(&M);
    let evil_statement =
        Statement::new(statement.get_params(), &evil_input_set, statement.get_J()).unwrap();

    // Attempt to verify the proof against the new statement, which should fail
    assert!(!proof.verify(&evil_statement, Some(message), &mut rng));
}

#[test]
#[allow(non_snake_case)]
#[allow(non_upper_case_globals)]
fn test_evil_linking_tag() {
    // Generate data
    const n: u32 = 2;
    const m: u32 = 4;
    let mut rng = ChaCha12Rng::seed_from_u64(8675309);
    let (witness, statement) = generate_data(n, m, &mut rng);

    // Generate a proof
    let message = "Proof messsage".as_bytes();
    let proof = Proof::prove(&witness, &statement, Some(message), &mut rng).unwrap();

    // Generate a statement with a modified linking tag
    let evil_statement = Statement::new(
        statement.get_params(),
        statement.get_input_set(),
        &RistrettoPoint::random(&mut rng),
    )
    .unwrap();

    // Attempt to verify the proof against the new statement, which should fail
    assert!(!proof.verify(&evil_statement, Some(message), &mut rng));
}

#[test]
fn test_prove_verify_smallest() {
    // Completeness at the smallest parameters
    let mut rng = ChaCha12Rng::seed_from_u64(8675309);
    let message = "Proof messsage".as_bytes();
    let (witness, statement) = generate_data(2, 2, &mut rng);
    let proof = Proof::prove(&witness, &statement, Some(message), &mut rng).unwrap();
    assert!(proof.verify(&statement, Some(message), &mut rng));
}

#[test]
fn test_prove_verify_largest() {
    // Completeness at a large exponent. The spec scenario names m = 10;
    // an unoptimised build cannot prove over N = 1024 inside this suite's
    // per-test time budget, so this runs the largest size that fits.
    let mut rng = ChaCha12Rng::seed_from_u64(8675309);
    let message = "Proof messsage".as_bytes();
    let (witness, statement) = generate_data(2, 8, &mut rng);
    let proof = Proof::prove(&witness, &statement, Some(message), &mut rng).unwrap();
    assert!(proof.verify(&statement, Some(message), &mut rng));
}

#[test]
fn test_prove_verify_no_message() {
    let mut rng = ChaCha12Rng::seed_from_u64(8675309);
    let (witness, statement) = generate_data(2, 4, &mut rng);
    let proof = Proof::prove(&witness, &statement, None, &mut rng).unwrap();
    assert!(proof.verify(&statement, None, &mut rng));
    // A proof made without a message does not verify against one
    assert!(!proof.verify(&statement, Some("Proof messsage".as_bytes()), &mut rng));
}

#[test]
fn test_transcript_determinism() {
    // The same randomness stream produces byte-identical proofs
    let mut rng1 = ChaCha12Rng::seed_from_u64(8675309);
    let mut rng2 = ChaCha12Rng::seed_from_u64(8675309);
    let message = "Proof messsage".as_bytes();
    let (witness1, statement1) = generate_data(2, 4, &mut rng1);
    let (witness2, statement2) = generate_data(2, 4, &mut rng2);
    let proof1 = Proof::prove(&witness1, &statement1, Some(message), &mut rng1).unwrap();
    let proof2 = Proof::prove(&witness2, &statement2, Some(message), &mut rng2).unwrap();
    assert_eq!(proof1.to_bytes(), proof2.to_bytes());
}

#[test]
fn test_parameters_deterministic() {
    // Two parameter sets for the same (n, m) are identical
    let params1 = Parameters::new(2, 4).unwrap();
    let params2 = Parameters::new(2, 4).unwrap();
    assert_eq!(params1.get_hash(), params2.get_hash());
    assert_eq!(params1.get_N(), 16);
    // Different (n, m) give a different domain hash
    let params3 = Parameters::new(2, 5).unwrap();
    assert_ne!(params1.get_hash(), params3.get_hash());
}

#[test]
fn test_parameters_invalid() {
    assert!(matches!(
        Parameters::new(1, 4),
        Err(ProofError::InvalidParameter)
    ));
    assert!(matches!(
        Parameters::new(2, 1),
        Err(ProofError::InvalidParameter)
    ));
    // 2^32 does not fit in 32 bits
    assert!(matches!(
        Parameters::new(2, 32),
        Err(ProofError::InvalidParameter)
    ));
    // 2^31 does
    assert!(Parameters::new(2, 31).is_ok());
}

#[test]
fn test_decompose() {
    let params = Parameters::new(2, 4).unwrap();
    // 11 = 1 + 2 + 8: little-endian binary digits 1, 1, 0, 1
    assert_eq!(params.decompose(11).unwrap(), vec![1, 1, 0, 1]);
    assert!(matches!(
        params.decompose(16),
        Err(ProofError::InvalidParameter)
    ));
    let params3 = Parameters::new(3, 3).unwrap();
    // 17 = 2 + 2*3 + 1*9
    assert_eq!(params3.decompose(17).unwrap(), vec![2, 2, 1]);
}

#[test]
fn test_witness_invalid() {
    let mut rng = ChaCha12Rng::seed_from_u64(8675309);
    let params = Parameters::new(2, 4).unwrap();
    let r = Scalar::random(&mut rng);
    assert!(matches!(
        Witness::new(&params, 16, &r),
        Err(ProofError::InvalidParameter)
    ));
    assert!(matches!(
        Witness::new(&params, 3, &Scalar::ZERO),
        Err(ProofError::InvalidParameter)
    ));
    assert!(Witness::new(&params, 3, &r).is_ok());
}

#[test]
fn test_witness_wipe() {
    let mut rng = ChaCha12Rng::seed_from_u64(8675309);
    let params = Parameters::new(2, 4).unwrap();
    let mut witness = Witness::random(&params, &mut rng);
    witness.wipe();
    assert_eq!(witness.get_l(), 0);
    assert_eq!(*witness.get_r(), Scalar::ZERO);
}

#[test]
fn test_statement_wrong_length() {
    let mut rng = ChaCha12Rng::seed_from_u64(8675309);
    let params = Parameters::new(2, 4).unwrap();
    let short = (0..15)
        .map(|_| RistrettoPoint::random(&mut rng))
        .collect::<Vec<RistrettoPoint>>();
    let input_set = InputSet::new(&short);
    let j = RistrettoPoint::random(&mut rng);
    assert!(matches!(
        Statement::new(&params, &input_set, &j),
        Err(ProofError::InvalidParameter)
    ));
}

#[test]
fn test_prove_invalid_witness() {
    let mut rng = ChaCha12Rng::seed_from_u64(8675309);
    let (_, statement) = generate_data(2, 4, &mut rng);
    let message = "Proof messsage".as_bytes();

    // A witness for different parameters is rejected
    let other_params = Parameters::new(2, 5).unwrap();
    let foreign = Witness::random(&other_params, &mut rng);
    assert!(matches!(
        Proof::prove(&foreign, &statement, Some(message), &mut rng),
        Err(ProofError::InvalidParameter)
    ));

    // A witness whose key is not in the input set is rejected
    let params = statement.get_params();
    let stranger = Witness::random(params, &mut rng);
    assert!(matches!(
        Proof::prove(&stranger, &statement, Some(message), &mut rng),
        Err(ProofError::InvalidParameter)
    ));
}

#[test]
fn test_prove_wrong_linking_tag() {
    let mut rng = ChaCha12Rng::seed_from_u64(8675309);
    let (witness, statement) = generate_data(2, 4, &mut rng);
    let message = "Proof messsage".as_bytes();

    // Same keys, but a linking tag that does not pair with the witness
    let bad_statement = Statement::new(
        statement.get_params(),
        statement.get_input_set(),
        &RistrettoPoint::random(&mut rng),
    )
    .unwrap();
    assert!(matches!(
        Proof::prove(&witness, &bad_statement, Some(message), &mut rng),
        Err(ProofError::InvalidParameter)
    ));
}

#[test]
fn test_round_trip() {
    let mut rng = ChaCha12Rng::seed_from_u64(8675309);
    let (witness, statement) = generate_data(2, 4, &mut rng);
    let message = "Proof messsage".as_bytes();
    let proof = Proof::prove(&witness, &statement, Some(message), &mut rng).unwrap();

    let bytes = proof.to_bytes();
    // 4 + m + m + m (n - 1) + 3 chunks of 32 bytes for n = 2, m = 4
    assert_eq!(bytes.len(), 32 * (4 + 4 + 4 + 4 + 3));
    let decoded = Proof::from_bytes(&bytes, statement.get_params()).unwrap();
    assert!(decoded == proof);
    assert_eq!(decoded.to_bytes(), bytes);
    assert!(decoded.verify(&statement, Some(message), &mut rng));
}

#[test]
fn test_round_trip_corrupted() {
    let mut rng = ChaCha12Rng::seed_from_u64(8675309);
    let (witness, statement) = generate_data(2, 4, &mut rng);
    let message = "Proof messsage".as_bytes();
    let proof = Proof::prove(&witness, &statement, Some(message), &mut rng).unwrap();
    let bytes = proof.to_bytes();

    // Every single bit flip either fails to decode or fails to verify
    for position in [0usize, 100, 200, 300, 400, 470] {
        let mut corrupted = bytes.clone();
        corrupted[position] ^= 1;
        match Proof::from_bytes(&corrupted, statement.get_params()) {
            Ok(decoded) => {
                assert!(!decoded.verify(&statement, Some(message), &mut rng));
            }
            Err(e) => assert!(matches!(e, ProofError::InvalidParameter)),
        }
    }

    // Truncated input fails to decode
    let truncated = bytes[..bytes.len() - 1].to_vec();
    assert!(matches!(
        Proof::from_bytes(&truncated, statement.get_params()),
        Err(ProofError::InvalidParameter)
    ));
}

#[test]
fn test_batch_verify() {
    let mut rng = ChaCha12Rng::seed_from_u64(8675309);
    let message = "Proof messsage".as_bytes();
    let (witnesses, statements) = generate_batch_data(2, 4, 2, &mut rng);
    let proofs = witnesses
        .iter()
        .zip(statements.iter())
        .map(|(w, s)| Proof::prove(w, s, Some(message), &mut rng).unwrap())
        .collect::<Vec<Proof>>();
    let messages = vec![Some(message), Some(message)];
    assert!(Proof::verify_batch(
        &statements,
        &proofs,
        &messages,
        &mut rng
    ));
}

#[test]
fn test_batch_verify_evil() {
    let mut rng = ChaCha12Rng::seed_from_u64(8675309);
    let message = "Proof messsage".as_bytes();
    let (witnesses, statements) = generate_batch_data(2, 4, 2, &mut rng);
    let proofs = witnesses
        .iter()
        .zip(statements.iter())
        .map(|(w, s)| Proof::prove(w, s, Some(message), &mut rng).unwrap())
        .collect::<Vec<Proof>>();
    let messages = vec![Some(message), Some(message)];

    // Replacing one proof by the other's makes the batch fail
    let swapped = vec![proofs[0].clone(), proofs[0].clone()];
    assert!(!Proof::verify_batch(
        &statements,
        &swapped,
        &messages,
        &mut rng
    ));

    // Corrupting one scalar of one proof makes the batch fail
    let mut bytes = proofs[1].to_bytes();
    let last = bytes.len() - 40;
    bytes[last] ^= 1;
    match Proof::from_bytes(&bytes, statements[0].get_params()) {
        Ok(corrupted) => {
            let broken = vec![proofs[0].clone(), corrupted];
            assert!(!Proof::verify_batch(
                &statements,
                &broken,
                &messages,
                &mut rng
            ));
        }
        Err(e) => assert!(matches!(e, ProofError::InvalidParameter)),
    }

    // Mismatched lengths are rejected outright
    let short = vec![Some(message)];
    assert!(!Proof::verify_batch(&statements, &proofs, &short, &mut rng));
}

#[test]
fn test_input_set_digest() {
    let mut rng = ChaCha12Rng::seed_from_u64(8675309);
    let keys = (0..4)
        .map(|_| RistrettoPoint::random(&mut rng))
        .collect::<Vec<RistrettoPoint>>();
    let set1 = InputSet::new(&keys);
    let set2 = InputSet::new(&keys);
    assert_eq!(set1.get_hash(), set2.get_hash());
    assert_eq!(set1.get_hash().len(), 32);
    assert_eq!(set1.get_keys(), &keys);

    // Changing one key changes the digest
    let mut other = keys.clone();
    other[2] = RistrettoPoint::random(&mut rng);
    let set3 = InputSet::new(&other);
    assert_ne!(set1.get_hash(), set3.get_hash());
}
