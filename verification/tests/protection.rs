//! Tests of the KDF, the authenticated envelope, the persisted record and
//! the credential ledger.

use skele::ciphered::{Ciphered, CipherAlgorithm};
use skele::complete::{domain_candidates, identity_candidates};
use skele::state::{EncryptedKeyState, PublicKeyState};
use skele::kdf::{Kdf, KdfAlgorithm, KdfVersion};
use skele::state::{key_state_file_name, Credentials, KeyState, SecretKeyState};
use skele::storejson::{encrypted_to_json, parse_encrypted, parse_secret, secret_to_json};
use skele::types::Passphrase;

fn small_kdf(salt: [u8; 32]) -> Kdf {
    // Small cost parameters keep the tests fast; validity is the same
    // check the real parameters pass.
    Kdf {
        alg: KdfAlgorithm::Argon2id,
        ver: KdfVersion::V0x13,
        m_cost: 8,
        t_cost: 1,
        p_cost: 1,
        salt,
    }
}

#[test]
fn record_serialization_matches_the_reference_bytes() {
    // A record with known parts pins down the whole layout, including the
    // Base64 renderings of salt, nonce and ciphertext.
    let record = EncryptedKeyState {
        public: PublicKeyState {
            fingerprint: String::from("Xy"),
            kdf: small_kdf([0u8; 32]),
        },
        secret: Ciphered::from_parts(
            CipherAlgorithm::AesGcm256,
            [0u8; 12],
            vec![1u8, 2, 3],
        ),
    };
    let bytes = encrypted_to_json(&record);
    let expected = "{\"public\":{\"fingerprint\":\"Xy\",\"kdf\":{\"alg\":\"Argon2id\",\"ver\":\"0x13\",\"m_cost\":8,\"t_cost\":1,\"p_cost\":1,\"salt\":\"AAAAAAAAAAAAAAAAAAAAAAAAAAAAAAAAAAAAAAAAAAA=\"}},\"secret\":{\"alg\":\"AES-GCM-256\",\"nonce\":\"AAAAAAAAAAAAAAAA\",\"ciphered\":\"AQID\"}}";
    assert_eq!(bytes, expected.as_bytes().to_vec());
    let reread = parse_encrypted(&bytes).unwrap();
    assert_eq!(reread.public.fingerprint, "Xy");
    assert_eq!(reread.public.kdf.salt, [0u8; 32]);
    let (_, nonce, ciphered) = reread.secret.parts();
    assert_eq!(*nonce, [0u8; 12]);
    assert_eq!(*ciphered, vec![1u8, 2, 3]);
}

#[test]
fn kdf_is_deterministic_and_parameter_sensitive() {
    let kdf = small_kdf([7u8; 32]);
    let k1 = kdf.derive("a passphrase").unwrap();
    let k2 = kdf.derive("a passphrase").unwrap();
    assert_eq!(k1, k2);
    let other_pass = kdf.derive("b passphrase").unwrap();
    assert_ne!(k1, other_pass);
    let other_salt = small_kdf([8u8; 32]).derive("a passphrase").unwrap();
    assert_ne!(k1, other_salt);
    let mut other_cost = small_kdf([7u8; 32]);
    other_cost.t_cost = 2;
    assert_ne!(k1, other_cost.derive("a passphrase").unwrap());
}

#[test]
fn kdf_rejects_invalid_parameters() {
    let mut kdf = small_kdf([7u8; 32]);
    kdf.t_cost = 0;
    assert!(kdf.derive("a passphrase").is_err());
    let mut kdf2 = small_kdf([7u8; 32]);
    kdf2.m_cost = 4;
    assert!(kdf2.derive("a passphrase").is_err());
    // An oversized parallelism is rejected up front, before the
    // derivation's own validation arithmetic could see it.
    let mut kdf3 = small_kdf([7u8; 32]);
    kdf3.p_cost = 0x2000_0000;
    assert!(kdf3.derive("a passphrase").is_err());
}

#[test]
fn load_rejects_oversized_parallelism_without_panicking() {
    // A hostile or corrupted state file may carry any cost parameters;
    // decrypting must return an error, never panic.
    let salt_b64 = "AAAAAAAAAAAAAAAAAAAAAAAAAAAAAAAAAAAAAAAAAAA=";
    let record = format!(
        "{{\"public\":{{\"fingerprint\":\"Xy\",\"kdf\":{{\"alg\":\"Argon2id\",\"ver\":\"0x13\",\"m_cost\":8,\"t_cost\":1,\"p_cost\":536870912,\"salt\":\"{}\"}}}},\"secret\":{{\"alg\":\"AES-GCM-256\",\"nonce\":\"AAAAAAAAAAAAAAAA\",\"ciphered\":\"AQID\"}}}}",
        salt_b64,
    );
    let parsed = parse_encrypted(record.as_bytes()).unwrap();
    assert_eq!(parsed.public.kdf.p_cost, 536870912);
    let passphrase = Passphrase::from(String::from("a passphrase"));
    assert!(parsed.decrypt(&passphrase).is_err());
}

#[test]
fn default_kdf_uses_current_best_practice() {
    let kdf = Kdf::default();
    assert!(matches!(kdf.alg, KdfAlgorithm::Argon2id));
    assert!(matches!(kdf.ver, KdfVersion::V0x13));
    assert_eq!(kdf.m_cost, 19456);
    assert_eq!(kdf.t_cost, 2);
    assert_eq!(kdf.p_cost, 1);
    assert_ne!(Kdf::default().salt, kdf.salt);
}

#[test]
fn envelope_round_trips_and_rejects_wrong_key() {
    let key = [3u8; 32];
    let plain = b"a small serialized value".to_vec();
    let envelope = Ciphered::cipher(&plain, &key).unwrap();
    assert_eq!(envelope.decipher(&key).unwrap(), plain);
    let wrong = [4u8; 32];
    assert!(envelope.decipher(&wrong).is_err());
}

#[test]
fn envelope_rejects_tampering() {
    let key = [3u8; 32];
    let plain = b"a small serialized value".to_vec();
    let envelope = Ciphered::cipher(&plain, &key).unwrap();
    let (alg, nonce, ciphered) = envelope.parts();
    let mut tampered = ciphered.clone();
    tampered[0] ^= 1;
    let forged = Ciphered::from_parts(alg, *nonce, tampered);
    assert!(forged.decipher(&key).is_err());
}

#[test]
fn envelope_uses_fresh_nonces() {
    let key = [3u8; 32];
    let plain = b"a small serialized value".to_vec();
    let e1 = Ciphered::cipher(&plain, &key).unwrap();
    let e2 = Ciphered::cipher(&plain, &key).unwrap();
    assert_ne!(e1.parts().1, e2.parts().1);
}

#[test]
fn touch_counts_and_orders_the_ledger() {
    let passphrase = Passphrase::from(String::from("a passphrase"));
    let mut state = KeyState::new(&passphrase, "Fpfpfpfp").unwrap();
    assert_eq!(state.secret.credentials.len(), 0);
    state.touch("example.org", "alice");
    assert_eq!(state.secret.credentials.len(), 1);
    assert_eq!(state.secret.credentials[0].count, 1);
    state.touch("example.org", "alice");
    assert_eq!(state.secret.credentials.len(), 1);
    assert_eq!(state.secret.credentials[0].count, 2);
    state.touch("example.com", "bob");
    assert_eq!(state.secret.credentials.len(), 2);
    // Ascending count order puts the fresh pair first.
    assert_eq!(state.secret.credentials[0].domain.as_str(), "example.com");
    assert_eq!(state.secret.credentials[0].count, 1);
    assert_eq!(state.secret.credentials[1].domain.as_str(), "example.org");
    assert_eq!(state.secret.credentials[1].count, 2);
}

#[test]
fn ledger_serialization_round_trips() {
    let secret = SecretKeyState {
        credentials: vec![
            Credentials {
                domain: String::from("quo\"ted\\dom\nain"),
                identity: String::from("alice"),
                count: 3,
            },
            Credentials {
                domain: String::from("example.org"),
                identity: String::from("\u{1f511} holder"),
                count: 65535,
            },
        ],
    };
    let bytes = secret_to_json(&secret);
    let parsed = parse_secret(&bytes).unwrap();
    assert_eq!(parsed.credentials.len(), 2);
    assert_eq!(parsed.credentials[0].domain, secret.credentials[0].domain);
    assert_eq!(parsed.credentials[0].identity, secret.credentials[0].identity);
    assert_eq!(parsed.credentials[0].count, 3);
    assert_eq!(parsed.credentials[1].domain, secret.credentials[1].domain);
    assert_eq!(parsed.credentials[1].identity, secret.credentials[1].identity);
    assert_eq!(parsed.credentials[1].count, 65535);
}

#[test]
fn empty_ledger_serialization_round_trips() {
    let secret = SecretKeyState { credentials: Vec::new() };
    let bytes = secret_to_json(&secret);
    assert_eq!(bytes, b"{\"credentials\":[]}".to_vec());
    let parsed = parse_secret(&bytes).unwrap();
    assert_eq!(parsed.credentials.len(), 0);
}

#[test]
fn parser_rejects_malformed_records() {
    assert!(parse_secret(b"{\"credentials\":[}").is_none());
    assert!(parse_secret(b"{\"credentials\":[]} ").is_none());
    assert!(parse_secret(b"").is_none());
    assert!(parse_encrypted(b"{}").is_none());
    assert!(parse_encrypted(b"").is_none());
    // A record whose salt is not valid Base64 is refused.
    let bad = b"{\"public\":{\"fingerprint\":\"Xy\",\"kdf\":{\"alg\":\"Argon2id\",\"ver\":\"0x13\",\"m_cost\":8,\"t_cost\":1,\"p_cost\":1,\"salt\":\"AAA\"}},\"secret\":{\"alg\":\"AES-GCM-256\",\"nonce\":\"AAAAAAAAAAAAAAAA\",\"ciphered\":\"AAAA\"}}";
    assert!(parse_encrypted(bad).is_none());
}

#[test]
fn save_and_load_round_trip_through_the_record() {
    let passphrase = Passphrase::from(String::from("a passphrase"));
    let mut state = KeyState::new(&passphrase, "Fpfpfpfp").unwrap();
    // Small cost parameters keep the test fast; re-derive the key for
    // them so decryption matches.
    state.public.kdf = small_kdf([9u8; 32]);
    state.key = state.public.kdf.derive(passphrase.as_str()).unwrap();
    state.touch("example.org", "alice");
    state.touch("example.org", "alice");
    state.touch("example.com", "bob");

    let record = state.encrypt().unwrap();
    let bytes = encrypted_to_json(&record);
    let reread = parse_encrypted(&bytes).unwrap();
    assert_eq!(reread.public.fingerprint, state.public.fingerprint);
    assert_eq!(reread.public.kdf.salt, state.public.kdf.salt);

    let reloaded = reread.decrypt(&passphrase).unwrap();
    assert_eq!(reloaded.key, state.key);
    assert_eq!(reloaded.secret.credentials.len(), 2);
    assert_eq!(reloaded.secret.credentials[0].domain.as_str(), "example.com");
    assert_eq!(reloaded.secret.credentials[0].count, 1);
    assert_eq!(reloaded.secret.credentials[1].domain.as_str(), "example.org");
    assert_eq!(reloaded.secret.credentials[1].count, 2);
}

#[test]
fn load_with_wrong_passphrase_fails() {
    let passphrase = Passphrase::from(String::from("a passphrase"));
    let mut state = KeyState::new(&passphrase, "Fpfpfpfp").unwrap();
    state.public.kdf = small_kdf([9u8; 32]);
    state.key = state.public.kdf.derive(passphrase.as_str()).unwrap();
    state.touch("example.org", "alice");

    let record = state.encrypt().unwrap();
    let bytes = encrypted_to_json(&record);
    let reread = parse_encrypted(&bytes).unwrap();
    let wrong = Passphrase::from(String::from("b passphrase"));
    assert!(reread.decrypt(&wrong).is_err());
}

#[test]
fn state_file_names_follow_the_fingerprint() {
    assert_eq!(key_state_file_name("Fpfpfpfp", None), "Fpfpfpfp.json");
    assert_eq!(key_state_file_name("Fpfpfpfp", Some(1234)), "Fpfpfpfp.json.1234");
    assert_eq!(key_state_file_name("Fpfpfpfp", Some(0)), "Fpfpfpfp.json.0");
}

#[test]
fn domain_candidates_rank_by_count_then_name() {
    let credentials = vec![
        Credentials { domain: String::from("b.org"), identity: String::from("x"), count: 2 },
        Credentials { domain: String::from("a.org"), identity: String::from("x"), count: 1 },
        Credentials { domain: String::from("a.org"), identity: String::from("y"), count: 1 },
        Credentials { domain: String::from("c.com"), identity: String::from("x"), count: 9 },
    ];
    // "a.org" totals 2 across identities, tying "b.org"; the tie breaks
    // by ascending name, and each domain appears once.
    let ranked = domain_candidates(&credentials, "");
    assert_eq!(ranked, vec![
        String::from("c.com"),
        String::from("a.org"),
        String::from("b.org"),
    ]);
    let filtered = domain_candidates(&credentials, "a");
    assert_eq!(filtered, vec![String::from("a.org")]);
    // Nothing matches: the partial itself comes back.
    assert_eq!(domain_candidates(&credentials, "zzz"), vec![String::from("zzz")]);
}

#[test]
fn identity_candidates_rank_within_one_domain() {
    let credentials = vec![
        Credentials { domain: String::from("a.org"), identity: String::from("bob"), count: 5 },
        Credentials { domain: String::from("a.org"), identity: String::from("alice"), count: 1 },
        Credentials { domain: String::from("b.org"), identity: String::from("carol"), count: 9 },
    ];
    let ranked = identity_candidates(&credentials, "a.org", "");
    assert_eq!(ranked, vec![String::from("bob"), String::from("alice")]);
    assert_eq!(
        identity_candidates(&credentials, "a.org", "al"),
        vec![String::from("alice")],
    );
    assert_eq!(
        identity_candidates(&credentials, "missing.org", ""),
        vec![String::from("")],
    );
}
