use arms_hat::id::{hex_char_to_nibble, parse_id_hex, HexError};
use arms_hat::{AttentionBatch, AttentionError, AttentionState, CompressedKV, Id, Role};

fn words(v: &[f32]) -> Vec<u32> {
    v.iter().map(|x| x.to_bits()).collect()
}

#[test]
fn test_role_roundtrip() {
    for role in [Role::System, Role::User, Role::Assistant, Role::Tool, Role::Context] {
        let byte = role.to_byte();
        let restored = Role::from_byte(byte).unwrap();
        assert_eq!(role, restored);
    }
}

#[test]
fn test_attention_state_roundtrip() {
    let state = AttentionState::new(
        Role::User,
        "Hello, how are you?".to_string(),
        words(&[0.1, 0.2, 0.3, 0.4]),
    )
    .with_metadata("turn", "1");

    let bytes = state.to_bytes();
    let restored = AttentionState::from_bytes(&bytes).unwrap();

    assert_eq!(state.role, restored.role);
    assert_eq!(state.text, restored.text);
    assert_eq!(state.embedding, restored.embedding);
    assert_eq!(state.metadata.get("turn"), restored.metadata.get("turn"));
    assert_eq!(restored.metadata.get("turn"), Some("1"));
    assert_eq!(state.id, restored.id);
    assert_eq!(state.timestamp_ms, restored.timestamp_ms);
}

#[test]
fn test_attention_state_with_kv() {
    let kv = CompressedKV {
        model_id: "llama-3-8b".to_string(),
        num_layers: 32,
        num_heads: 32,
        head_dim: 128,
        seq_len: 10,
        quantization: "fp16".to_string(),
        data: vec![1, 2, 3, 4, 5],
    };

    let state = AttentionState::new(
        Role::Assistant,
        "I'm doing well!".to_string(),
        words(&[0.5, 0.6, 0.7, 0.8]),
    )
    .with_kv_cache(kv);

    let bytes = state.to_bytes();
    let restored = AttentionState::from_bytes(&bytes).unwrap();

    assert!(restored.kv_cache.is_some());
    let restored_kv = restored.kv_cache.unwrap();
    assert_eq!(restored_kv.model_id, "llama-3-8b");
    assert_eq!(restored_kv.num_layers, 32);
    assert_eq!(restored_kv.data, vec![1, 2, 3, 4, 5]);
}

#[test]
fn test_batch_roundtrip() {
    let mut batch = AttentionBatch::new().with_session(Id::now());

    batch.add(AttentionState::new(
        Role::User,
        "Question 1".to_string(),
        words(&[0.1, 0.2]),
    ));

    batch.add(AttentionState::new(
        Role::Assistant,
        "Answer 1".to_string(),
        words(&[0.3, 0.4]),
    ));

    let bytes = batch.to_bytes();
    let restored = AttentionBatch::from_bytes(&bytes).unwrap();

    assert_eq!(restored.states.len(), 2);
    assert_eq!(restored.states[0].text, "Question 1");
    assert_eq!(restored.states[1].text, "Answer 1");
    assert!(restored.session_id.is_some());
}

#[test]
fn role_names() {
    assert_eq!(Role::System.as_str(), "system");
    assert_eq!(Role::Context.as_str(), "context");
    assert_eq!(Role::from_str("USER"), Some(Role::User));
    assert_eq!(Role::from_str("Function"), Some(Role::Tool));
    assert_eq!(Role::from_str("retrieved"), Some(Role::Context));
    assert_eq!(Role::from_str("nobody"), None);
    assert_eq!(Role::from_byte(5), None);
}

#[test]
fn record_layout_is_exact() {
    let state = AttentionState::with_origin(
        Id::from_parts(0x0102030405060708, 0x1112131415161718),
        0x2122232425262728,
        Role::Assistant,
        "hi".to_string(),
        vec![0x3f800000],
    );
    let bytes = state.to_bytes();
    let mut expected: Vec<u8> = Vec::new();
    expected.extend_from_slice(b"ATTN");
    expected.extend_from_slice(&[1, 0, 0, 0]);
    expected.extend_from_slice(&[1, 2, 3, 4, 5, 6, 7, 8, 0x11, 0x12, 0x13, 0x14, 0x15, 0x16, 0x17, 0x18]);
    expected.extend_from_slice(&[0x28, 0x27, 0x26, 0x25, 0x24, 0x23, 0x22, 0x21]);
    expected.push(2);
    expected.extend_from_slice(&[2, 0, 0, 0]);
    expected.extend_from_slice(b"hi");
    expected.extend_from_slice(&[1, 0, 0, 0]);
    expected.extend_from_slice(&1.0f32.to_le_bytes());
    expected.push(0);
    expected.extend_from_slice(&[0, 0, 0, 0]);
    assert_eq!(bytes, expected);
}

#[test]
fn kv_layout_and_consumed_length() {
    let kv = CompressedKV {
        model_id: "m".to_string(),
        num_layers: 1,
        num_heads: 2,
        head_dim: 3,
        seq_len: 4,
        quantization: "q8".to_string(),
        data: vec![9, 8],
    };
    assert_eq!(kv.size_bytes(), 2);
    let mut bytes = kv.to_bytes();
    assert_eq!(bytes.len(), 4 + 1 + 16 + 4 + 2 + 8 + 2);
    bytes.push(0xff);
    let (back, used) = CompressedKV::from_bytes(&bytes).unwrap();
    assert_eq!(used, bytes.len() - 1);
    assert_eq!(back.model_id, "m");
    assert_eq!(back.seq_len, 4);
    assert_eq!(back.quantization, "q8");
    assert_eq!(back.data, vec![9, 8]);
    assert!(CompressedKV::from_bytes(&bytes[..bytes.len() - 2]).is_none());
    let p = CompressedKV::placeholder("none-such");
    assert_eq!(p.model_id, "none-such");
    assert_eq!(p.quantization, "none");
    assert_eq!(p.num_layers, 0);
    assert!(p.data.is_empty());
}

fn format_message(r: Result<AttentionState, AttentionError>) -> String {
    match r {
        Err(AttentionError::InvalidFormat(m)) => m,
        Err(AttentionError::InvalidMagic) => "magic".to_string(),
        Err(AttentionError::UnsupportedVersion(v)) => format!("version {}", v),
        Ok(_) => "ok".to_string(),
    }
}

#[test]
fn record_rejections() {
    let state = AttentionState::new(Role::User, "abc".to_string(), words(&[1.0]))
        .with_metadata("k", "v");
    let good = state.to_bytes();
    assert_eq!(format_message(AttentionState::from_bytes(&good[..7])), "Too short");
    let mut bad = good.clone();
    bad[0] = b'X';
    assert_eq!(format_message(AttentionState::from_bytes(&bad)), "magic");
    let mut bad = good.clone();
    bad[4] = 2;
    assert_eq!(format_message(AttentionState::from_bytes(&bad)), "version 2");
    assert_eq!(format_message(AttentionState::from_bytes(&good[..20])), "Missing ID");
    assert_eq!(format_message(AttentionState::from_bytes(&good[..30])), "Missing timestamp");
    assert_eq!(format_message(AttentionState::from_bytes(&good[..32])), "Missing role");
    let mut bad = good.clone();
    bad[32] = 5;
    assert_eq!(format_message(AttentionState::from_bytes(&bad)), "Invalid role");
    assert_eq!(format_message(AttentionState::from_bytes(&good[..35])), "Missing text length");
    assert_eq!(format_message(AttentionState::from_bytes(&good[..38])), "Text truncated");
    let mut bad = good.clone();
    bad[37] = 0xff;
    assert_eq!(format_message(AttentionState::from_bytes(&bad)), "Invalid UTF-8 in text");
    assert_eq!(format_message(AttentionState::from_bytes(&good[..42])), "Missing embedding length");
    assert_eq!(format_message(AttentionState::from_bytes(&good[..46])), "Embedding truncated");
    assert_eq!(format_message(AttentionState::from_bytes(&good[..48])), "Missing KV flag");
    assert_eq!(format_message(AttentionState::from_bytes(&good[..50])), "Missing metadata count");
    assert_eq!(format_message(AttentionState::from_bytes(&good[..54])), "Missing key length");
    assert_eq!(format_message(AttentionState::from_bytes(&good[..57])), "Key truncated");
    assert_eq!(format_message(AttentionState::from_bytes(&good[..59])), "Missing value length");
    assert_eq!(format_message(AttentionState::from_bytes(&good[..62])), "Value truncated");
    assert_eq!(format_message(AttentionState::from_bytes(&good)), "ok");
    let mut longer = good.clone();
    longer.push(7);
    assert_eq!(format_message(AttentionState::from_bytes(&longer)), "ok");
}

#[test]
fn batch_with_three_states_and_metadata() {
    let session = Id::from_parts(7, 8);
    let document = Id::from_parts(9, 10);
    let mut batch = AttentionBatch::new().with_session(session).with_document(document);
    for i in 0..3u32 {
        let text = format!("state {}", i);
        let state = AttentionState::new(Role::Tool, text, vec![i, i + 1])
            .with_metadata("index", &i.to_string())
            .with_metadata("kind", "test")
            .with_metadata("index", &(i + 10).to_string());
        batch.add(state);
    }
    let bytes = batch.to_bytes();
    let restored = AttentionBatch::from_bytes(&bytes).unwrap();
    assert_eq!(restored.session_id, Some(session));
    assert_eq!(restored.document_id, Some(document));
    assert_eq!(restored.states.len(), 3);
    for i in 0..3usize {
        let (a, b) = (&batch.states[i], &restored.states[i]);
        assert_eq!(a.id, b.id);
        assert_eq!(a.timestamp_ms, b.timestamp_ms);
        assert_eq!(a.role, b.role);
        assert_eq!(a.text, b.text);
        assert_eq!(a.embedding, b.embedding);
        assert_eq!(b.metadata.len(), 2);
        assert_eq!(b.metadata.key_at(0), "index");
        assert_eq!(b.metadata.get("index"), Some((i as u32 + 10).to_string().as_str()));
        assert_eq!(b.metadata.get("kind"), Some("test"));
        assert_eq!(b.metadata.get("absent"), None);
    }
    assert_eq!(restored.to_bytes(), bytes);
    assert!(matches!(
        AttentionBatch::from_bytes(&bytes[..bytes.len() - 1]),
        Err(AttentionError::InvalidFormat(_))
    ));
    let empty = AttentionBatch::default();
    assert_eq!(empty.to_bytes(), vec![b'A', b'T', b'N', b'B', 1, 0, 0, 0, 0, 0, 0, 0, 0, 0]);
}

#[test]
fn errors_in_words() {
    assert_eq!(AttentionError::InvalidMagic.message(), "Invalid magic bytes");
    assert_eq!(AttentionError::UnsupportedVersion(4_000_000_123).message(), "Unsupported version: 4000000123");
    assert_eq!(AttentionError::UnsupportedVersion(0).message(), "Unsupported version: 0");
    assert_eq!(
        AttentionError::InvalidFormat("Too short".to_string()).message(),
        "Invalid format: Too short"
    );
}

#[test]
fn sizes_are_estimated() {
    let state = AttentionState::new(Role::User, "abcd".to_string(), words(&[1.0, 2.0]))
        .with_metadata("key", "value")
        .with_kv_cache(CompressedKV {
            model_id: "m".to_string(),
            num_layers: 0,
            num_heads: 0,
            head_dim: 0,
            seq_len: 0,
            quantization: "q".to_string(),
            data: vec![0; 7],
        });
    assert_eq!(state.size_bytes(), 16 + 8 + 1 + 4 + 8 + 7 + (3 + 5 + 8));
    let mut batch = AttentionBatch::new();
    assert_eq!(batch.size_bytes(), 0);
    batch.add(state.clone());
    batch.add(state);
    assert_eq!(batch.size_bytes(), 2 * 60);
}

#[test]
fn identifiers_in_hexadecimal() {
    let id = Id::from_parts(0x0123456789abcdef, 0xfedcba9876543210);
    assert_eq!(id.to_hex(), "0123456789abcdeffedcba9876543210");
    assert_eq!(parse_id_hex("0123456789abcdeffedcba9876543210"), Ok(id));
    assert_eq!(parse_id_hex("0123456789ABCDEFFEDCBA9876543210"), Ok(id));
    assert_eq!(parse_id_hex("0123"), Err(HexError::Length(4)));
    assert_eq!(
        parse_id_hex("0123456789abcdeffedcba987654321g"),
        Err(HexError::Character(b'g'))
    );
    assert_eq!(
        parse_id_hex("x123456789abcdeffedcba987654321g"),
        Err(HexError::Character(b'x'))
    );
    assert_eq!(hex_char_to_nibble(b'a'), Ok(10));
    assert_eq!(hex_char_to_nibble(b'F'), Ok(15));
    assert_eq!(hex_char_to_nibble(b'7'), Ok(7));
    assert_eq!(hex_char_to_nibble(b' '), Err(HexError::Character(b' ')));
}
